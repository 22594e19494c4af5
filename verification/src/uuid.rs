//! Identities.
//!
//! Everything in the mesh that can be named — a device, a zone, a scene, a
//! source, a record — is named by sixteen bytes. Ties are broken by comparing
//! those bytes in order, so the comparison has to mean the same thing on every
//! device; here it is one number, the bytes read most significant first.

use vstd::prelude::*;

verus! {

/// The number that a run of bytes spells, most significant byte first.
pub open spec fn big_endian(bytes: Seq<u8>) -> nat
    decreases bytes.len(),
{
    if bytes.len() == 0 {
        0
    } else {
        big_endian(bytes.drop_last()) * 256 + bytes.last() as nat
    }
}

/// Whether `a` comes before `b` in dictionary order: at the first place where
/// they differ, `a` has the smaller byte.
pub open spec fn byte_order(a: Seq<u8>, b: Seq<u8>) -> bool {
    exists|i: int|
        0 <= i < a.len() && a.take(i) == b.take(i) && #[trigger] a[i] < b[i]
}

/// `256` multiplied by itself `n` times: how many values `n` bytes can spell.
pub open spec fn byte_space(n: nat) -> nat
    decreases n,
{
    if n == 0 {
        1
    } else {
        256 * byte_space((n - 1) as nat)
    }
}

/// A run of bytes spells less than the space its length allows.
pub proof fn lemma_big_endian_bound(bytes: Seq<u8>)
    ensures
        big_endian(bytes) < byte_space(bytes.len()),
    decreases bytes.len(),
{
    if bytes.len() != 0 {
        lemma_big_endian_bound(bytes.drop_last());
    }
}

/// Two runs of one length that spell the same number are the same run.
pub proof fn lemma_big_endian_injective(a: Seq<u8>, b: Seq<u8>)
    requires
        a.len() == b.len(),
        big_endian(a) == big_endian(b),
    ensures
        a == b,
    decreases a.len(),
{
    if a.len() != 0 {
        assert(a.last() == b.last());
        lemma_big_endian_injective(a.drop_last(), b.drop_last());
        assert(a =~= a.drop_last().push(a.last()));
        assert(b =~= b.drop_last().push(b.last()));
    }
    assert(a =~= b);
}

/// Dictionary order on runs of one length is the order of the numbers they
/// spell.
pub proof fn lemma_byte_order_is_numeric(a: Seq<u8>, b: Seq<u8>)
    requires
        a.len() == b.len(),
    ensures
        byte_order(a, b) <==> big_endian(a) < big_endian(b),
    decreases a.len(),
{
    if a.len() != 0 {
        let (p, q) = (a.drop_last(), b.drop_last());
        let n = a.len() - 1;
        lemma_byte_order_is_numeric(p, q);
        lemma_byte_order_is_numeric(q, p);
        if byte_order(a, b) {
            let i = choose|i: int|
                0 <= i < a.len() && a.take(i) == b.take(i) && #[trigger] a[i] < b[i];
            if i < n {
                assert(p.take(i) =~= a.take(i));
                assert(q.take(i) =~= b.take(i));
                assert(p[i] < q[i]);
            } else {
                assert(p =~= a.take(i));
                assert(q =~= b.take(i));
            }
        }
        if big_endian(a) < big_endian(b) {
            if big_endian(p) < big_endian(q) {
                let i = choose|i: int|
                    0 <= i < p.len() && p.take(i) == q.take(i) && #[trigger] p[i] < q[i];
                assert(p.take(i) =~= a.take(i));
                assert(q.take(i) =~= b.take(i));
                assert(a[i] < b[i]);
            } else {
                assert(big_endian(p) == big_endian(q));
                lemma_big_endian_injective(p, q);
                assert(a.take(n) =~= b.take(n)) by {
                    assert(p =~= a.take(n));
                    assert(q =~= b.take(n));
                }
                assert(a[n] < b[n]);
            }
        }
    }
}

/// A sixteen-byte identity.
#[derive(Clone, Copy, Eq, PartialOrd, Ord, Debug)]
pub struct Uuid(pub [u8; 16]);

impl PartialEq for Uuid {
    fn eq(&self, other: &Uuid) -> (same: bool) {
        let mut i: usize = 0;
        while i < 16
            invariant
                i <= 16,
                forall|k: int| 0 <= k < i ==> self.0@[k] == other.0@[k],
            decreases 16 - i,
        {
            if self.0[i] != other.0[i] {
                return false;
            }
            i += 1;
        }
        assert(self.0@ =~= other.0@);
        assert(self.0 == other.0);
        true
    }
}

impl vstd::std_specs::cmp::PartialEqSpecImpl for Uuid {
    open spec fn obeys_eq_spec() -> bool {
        true
    }

    open spec fn eq_spec(&self, other: &Uuid) -> bool {
        *self == *other
    }
}

impl Uuid {
    /// The number the sixteen bytes spell, by which identities are ordered.
    pub open spec fn key(self) -> nat {
        big_endian(self.0@)
    }

    /// The identity of nothing: all zero.
    #[verifier::allow_in_spec]
    pub fn nil() -> Uuid
        returns
            Uuid([0, 0, 0, 0, 0, 0, 0, 0, 0, 0, 0, 0, 0, 0, 0, 0]),
    {
        Uuid([0, 0, 0, 0, 0, 0, 0, 0, 0, 0, 0, 0, 0, 0, 0, 0])
    }

    pub fn as_bytes(&self) -> (bytes: &[u8; 16])
        ensures
            *bytes == self.0,
    {
        &self.0
    }

    /// [`Uuid::key`], computed.
    pub fn number(&self) -> (number: u128)
        ensures
            number == self.key(),
    {
        let mut number: u128 = 0;
        let mut i: usize = 0;
        proof {
            assert(byte_space(16) == 0x1_0000_0000_0000_0000_0000_0000_0000_0000) by {
                reveal_with_fuel(byte_space, 17);
            }
            assert(self.0@.take(0) =~= Seq::<u8>::empty());
        }
        while i < 16
            invariant
                i <= 16,
                number == big_endian(self.0@.take(i as int)),
                self.0@.len() == 16,
                byte_space(16) == 0x1_0000_0000_0000_0000_0000_0000_0000_0000,
            decreases 16 - i,
        {
            proof {
                let longer = self.0@.take(i + 1);
                assert(longer.drop_last() =~= self.0@.take(i as int));
                lemma_big_endian_bound(longer);
                lemma_byte_space_grows((i + 1) as nat, 16);
            }
            number = number * 256 + self.0[i] as u128;
            i += 1;
        }
        assert(self.0@.take(16) =~= self.0@);
        number
    }

    /// Whether this identity comes before `other`, byte by byte.
    pub fn precedes(&self, other: &Uuid) -> (before: bool)
        ensures
            before == byte_order(self.0@, other.0@),
            before == (self.key() < other.key()),
    {
        proof {
            lemma_byte_order_is_numeric(self.0@, other.0@);
        }
        self.number() < other.number()
    }
}

/// Longer runs spell more values.
pub proof fn lemma_byte_space_grows(a: nat, b: nat)
    requires
        a <= b,
    ensures
        1 <= byte_space(a) <= byte_space(b),
    decreases b,
{
    if b > a {
        lemma_byte_space_grows(a, (b - 1) as nat);
    } else if b > 0 {
        lemma_byte_space_grows((a - 1) as nat, (b - 1) as nat);
    }
}

/// Two identities with one key are one identity.
pub proof fn lemma_key_injective(a: Uuid, b: Uuid)
    requires
        a.key() == b.key(),
    ensures
        a == b,
{
    lemma_big_endian_injective(a.0@, b.0@);
    assert(a.0@ =~= b.0@);
    assert(a.0 == b.0);
}

/// Whether two four-byte prefixes are the same prefix.
pub fn same_prefix(a: &[u8; 4], b: &[u8; 4]) -> (same: bool)
    ensures
        same == (*a == *b),
{
    if a[0] == b[0] && a[1] == b[1] && a[2] == b[2] && a[3] == b[3] {
        assert(a@ =~= b@);
        assert(*a == *b);
        true
    } else {
        false
    }
}

} // verus!
