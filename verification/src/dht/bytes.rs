//! Byte strings: equality, the order of big-endian numbers, XOR.

use vstd::arithmetic::power2::{lemma2_to64, lemma_pow2_adds, pow2};
use vstd::prelude::*;

verus! {

/// The number that a byte string spells in base 256, most significant byte
/// first.
pub open spec fn be_nat(s: Seq<u8>) -> nat
    decreases s.len(),
{
    if s.len() == 0 {
        0
    } else {
        be_nat(s.drop_last()) * 256 + s.last() as nat
    }
}

/// Bytewise exclusive or of two strings of the same length.
pub open spec fn xor_seq(a: Seq<u8>, b: Seq<u8>) -> Seq<u8> {
    Seq::new(a.len(), |i: int| a[i] ^ b[i])
}

/// `p` is the beginning of `s`.
pub open spec fn starts_with(s: Seq<u8>, p: Seq<u8>) -> bool {
    p.len() <= s.len() && s.take(p.len() as int) == p
}

/// Among strings of one length, the one that is smaller at the first place
/// where they differ spells the smaller number.
pub proof fn lemma_first_difference_decides(a: Seq<u8>, b: Seq<u8>, i: int, k: int)
    requires
        a.len() == b.len(),
        0 <= i < k <= a.len(),
        forall|j: int| 0 <= j < i ==> a[j] == b[j],
        a[i] < b[i],
    ensures
        be_nat(a.take(k)) < be_nat(b.take(k)),
    decreases k,
{
    assert(a.take(k).drop_last() =~= a.take(k - 1));
    assert(b.take(k).drop_last() =~= b.take(k - 1));
    if k == i + 1 {
        assert(a.take(i) =~= b.take(i));
    } else {
        lemma_first_difference_decides(a, b, i, k - 1);
    }
}

/// Strings of one length that spell the same number are equal.
pub proof fn lemma_be_nat_injective(a: Seq<u8>, b: Seq<u8>)
    requires
        a.len() == b.len(),
        be_nat(a) == be_nat(b),
    ensures
        a == b,
    decreases a.len(),
{
    if a.len() > 0 {
        assert(a.last() == b.last());
        lemma_be_nat_injective(a.drop_last(), b.drop_last());
        assert(a =~= a.drop_last().push(a.last()));
        assert(b =~= b.drop_last().push(b.last()));
    } else {
        assert(a =~= b);
    }
}

/// A string of zero bytes spells zero.
pub proof fn lemma_zeros_spell_zero(s: Seq<u8>)
    requires
        forall|i: int| 0 <= i < s.len() ==> s[i] == 0,
    ensures
        be_nat(s) == 0,
    decreases s.len(),
{
    if s.len() > 0 {
        lemma_zeros_spell_zero(s.drop_last());
    }
}

/// Appending bytes to a string moves the number up by a power of 256: the
/// number of `s` lies in the range that its first `k` bytes leave open.
pub proof fn lemma_be_nat_range(s: Seq<u8>, k: int)
    requires
        0 <= k <= s.len(),
    ensures
        be_nat(s.take(k)) * pow2((8 * (s.len() - k)) as nat) <= be_nat(s),
        be_nat(s) < (be_nat(s.take(k)) + 1) * pow2((8 * (s.len() - k)) as nat),
    decreases s.len(),
{
    let m = (s.len() - k) as nat;
    if m == 0 {
        assert(s.take(k) =~= s);
        lemma2_to64();
    } else {
        let head = s.drop_last();
        lemma_be_nat_range(head, k);
        assert(head.take(k) =~= s.take(k));
        lemma_pow2_adds((8 * (m - 1)) as nat, 8);
        lemma2_to64();
        let x = be_nat(s.take(k)) as int;
        let h = be_nat(head) as int;
        let p = pow2((8 * (m - 1)) as nat) as int;
        let q = pow2((8 * m) as nat) as int;
        assert(q == p * 256);
        assert(x * q == (x * p) * 256) by (nonlinear_arith)
            requires
                q == p * 256,
        ;
        assert((x + 1) * q == ((x + 1) * p) * 256) by (nonlinear_arith)
            requires
                q == p * 256,
        ;
        assert(x * p <= h < (x + 1) * p);
    }
}

/// The position of the highest set bit of a byte, from the number of zero bits
/// before it.
pub proof fn lemma_leading_zeros_range(b: u8)
    requires
        b != 0,
    ensures
        0 <= vstd::std_specs::bits::u8_leading_zeros(b) < 8,
        pow2((7 - vstd::std_specs::bits::u8_leading_zeros(b)) as nat) <= b,
        b < pow2((8 - vstd::std_specs::bits::u8_leading_zeros(b)) as nat),
{
    vstd::std_specs::bits::axiom_u8_leading_zeros(b);
    lemma2_to64();
    let z = vstd::std_specs::bits::u8_leading_zeros(b) as u8;
    assert(z < 8 && (b >> ((7u8 - z) as u8)) & 1u8 != 0u8 && b >> ((8u8 - z) as u8) == 0 ==> {
        &&& z == 0 ==> 128 <= b
        &&& z == 1 ==> 64 <= b < 128
        &&& z == 2 ==> 32 <= b < 64
        &&& z == 3 ==> 16 <= b < 32
        &&& z == 4 ==> 8 <= b < 16
        &&& z == 5 ==> 4 <= b < 8
        &&& z == 6 ==> 2 <= b < 4
        &&& z == 7 ==> 1 <= b < 2
    }) by (bit_vector);
}

/// XOR with a fixed string is injective.
pub proof fn lemma_xor_injective(a: Seq<u8>, b: Seq<u8>, t: Seq<u8>)
    requires
        a.len() == b.len(),
        xor_seq(a, t) == xor_seq(b, t),
    ensures
        a == b,
{
    assert forall|i: int| 0 <= i < a.len() implies a[i] == b[i] by {
        let x = a[i];
        let y = b[i];
        let z = t[i];
        assert(xor_seq(a, t)[i] == x ^ z);
        assert(xor_seq(b, t)[i] == y ^ z);
        assert((x ^ z) == (y ^ z) ==> x == y) by (bit_vector);
    }
    assert(a =~= b);
}

/// XOR does not depend on the order of its operands.
pub proof fn lemma_xor_commutes(a: Seq<u8>, b: Seq<u8>)
    requires
        a.len() == b.len(),
    ensures
        xor_seq(a, b) == xor_seq(b, a),
{
    assert forall|i: int| 0 <= i < a.len() implies a[i] ^ b[i] == b[i] ^ a[i] by {
        let x = a[i];
        let y = b[i];
        assert(x ^ y == y ^ x) by (bit_vector);
    }
    assert(xor_seq(a, b) =~= xor_seq(b, a));
}

/// Whether two byte strings are the same.
pub fn bytes_eq(a: &[u8], b: &[u8]) -> (r: bool)
    ensures
        r == (a@ == b@),
{
    if a.len() != b.len() {
        return false;
    }
    let mut i: usize = 0;
    while i < a.len()
        invariant
            0 <= i <= a.len(),
            a.len() == b.len(),
            forall|j: int| 0 <= j < i ==> a[j] == b[j],
        decreases a.len() - i,
    {
        if a[i] != b[i] {
            assert(a@[i as int] != b@[i as int]);
            return false;
        }
        i = i + 1;
    }
    assert(a@ =~= b@);
    true
}

/// Whether two arrays of 32 bytes are the same.
pub fn eq32(a: &[u8; 32], b: &[u8; 32]) -> (r: bool)
    ensures
        r == (*a == *b),
        r == (a@ == b@),
{
    let mut i: usize = 0;
    while i < 32
        invariant
            0 <= i <= 32,
            forall|j: int| 0 <= j < i ==> a[j] == b[j],
        decreases 32 - i,
    {
        if a[i] != b[i] {
            assert(a@[i as int] != b@[i as int]);
            return false;
        }
        i = i + 1;
    }
    assert(a@ =~= b@);
    assert(*a =~= *b);
    true
}

/// Whether `a` spells a smaller number than `b`.
pub fn less32(a: &[u8; 32], b: &[u8; 32]) -> (r: bool)
    ensures
        r == (be_nat(a@) < be_nat(b@)),
{
    let mut i: usize = 0;
    while i < 32
        invariant
            0 <= i <= 32,
            forall|j: int| 0 <= j < i ==> a[j] == b[j],
        decreases 32 - i,
    {
        if a[i] != b[i] {
            proof {
                assert(a@.take(32) =~= a@);
                assert(b@.take(32) =~= b@);
                if a[i as int] < b[i as int] {
                    lemma_first_difference_decides(a@, b@, i as int, 32);
                } else {
                    lemma_first_difference_decides(b@, a@, i as int, 32);
                }
            }
            return a[i] < b[i];
        }
        i = i + 1;
    }
    assert(a@ =~= b@);
    false
}

/// Bytewise XOR of two arrays of 32 bytes.
pub fn xor32(a: &[u8; 32], b: &[u8; 32]) -> (r: [u8; 32])
    ensures
        r@ == xor_seq(a@, b@),
{
    let mut out: [u8; 32] = [0u8; 32];
    let mut i: usize = 0;
    while i < 32
        invariant
            0 <= i <= 32,
            forall|j: int| 0 <= j < i ==> out[j] == a[j] ^ b[j],
        decreases 32 - i,
    {
        out[i] = a[i] ^ b[i];
        i = i + 1;
    }
    assert(out@ =~= xor_seq(a@, b@));
    out
}

/// A copy of a byte string.
pub fn copy_bytes(s: &[u8]) -> (r: Vec<u8>)
    ensures
        r@ == s@,
{
    let mut out: Vec<u8> = Vec::new();
    let mut i: usize = 0;
    while i < s.len()
        invariant
            0 <= i <= s.len(),
            out@ == s@.take(i as int),
        decreases s.len() - i,
    {
        out.push(s[i]);
        i = i + 1;
        assert(out@ =~= s@.take(i as int));
    }
    assert(s@.take(s@.len() as int) =~= s@);
    out
}

/// Puts the bytes of `s` behind those of `out`.
pub fn append_bytes(out: &mut Vec<u8>, s: &[u8])
    ensures
        final(out)@ == old(out)@ + s@,
{
    let ghost before = out@;
    let mut i: usize = 0;
    while i < s.len()
        invariant
            0 <= i <= s.len(),
            out@ == before + s@.take(i as int),
        decreases s.len() - i,
    {
        out.push(s[i]);
        i = i + 1;
        assert(out@ =~= before + s@.take(i as int));
    }
    assert(s@.take(s@.len() as int) =~= s@);
}

/// The lowest `len` bytes of a number, most significant first.
pub open spec fn be_bytes(n: nat, len: nat) -> Seq<u8>
    decreases len,
{
    if len == 0 {
        Seq::empty()
    } else {
        be_bytes(n / 256, (len - 1) as nat).push((n % 256) as u8)
    }
}

/// Eight bytes hold every 64-bit number, and no two numbers the same way.
pub proof fn lemma_be_bytes_spell(n: u64)
    ensures
        be_bytes(n as nat, 8).len() == 8,
        be_nat(be_bytes(n as nat, 8)) == n,
{
    assert(vstd::arithmetic::power::pow(256, 8) == 0x1_0000_0000_0000_0000) by {
        reveal_with_fuel(vstd::arithmetic::power::pow, 9);
    }
    lemma_be_bytes_number(n as nat, 8);
}

proof fn lemma_be_bytes_number(n: nat, len: nat)
    requires
        n < vstd::arithmetic::power::pow(256, len),
    ensures
        be_bytes(n, len).len() == len,
        be_nat(be_bytes(n, len)) == n,
    decreases len,
{
    reveal(vstd::arithmetic::power::pow);
    if len > 0 {
        let p = vstd::arithmetic::power::pow(256, (len - 1) as nat);
        assert(vstd::arithmetic::power::pow(256, len) == 256 * p);
        assert(n / 256 < p);
        lemma_be_bytes_number(n / 256, (len - 1) as nat);
        assert(be_bytes(n, len).drop_last() =~= be_bytes(n / 256, (len - 1) as nat));
    }
}

/// The eight bytes of a number, most significant first.
pub fn be8(n: u64) -> (r: [u8; 8])
    ensures
        r@ == be_bytes(n as nat, 8),
{
    let mut out: [u8; 8] = [0u8; 8];
    let mut rest: u64 = n;
    let mut i: usize = 8;
    let ghost full = be_bytes(n as nat, 8);
    assert(be_bytes(n as nat, 8) + Seq::<u8>::empty() =~= full);
    assert(out@.skip(8) =~= Seq::<u8>::empty());
    while i > 0
        invariant
            0 <= i <= 8,
            full == be_bytes(rest as nat, i as nat) + out@.skip(i as int),
        decreases i,
    {
        let ghost before = out@;
        i = i - 1;
        out[i] = (rest % 256) as u8;
        proof {
            assert(out@.skip(i as int) =~= seq![(rest % 256) as u8] + before.skip(i + 1));
            assert(full =~= be_bytes((rest / 256) as nat, i as nat) + out@.skip(i as int));
        }
        rest = rest / 256;
    }
    assert(out@.skip(0) =~= out@);
    assert(full =~= out@);
    out
}

/// The number that eight bytes spell, most significant first.
pub fn read8(b: &[u8; 8]) -> (r: u64)
    ensures
        r == be_nat(b@),
{
    proof {
        reveal_with_fuel(be_nat, 9);
    }
    let high: u64 = b[0] as u64 * 0x1_000000 + b[1] as u64 * 0x1_0000 + b[2] as u64 * 0x100 + b[3] as u64;
    let low: u64 = b[4] as u64 * 0x1_000000 + b[5] as u64 * 0x1_0000 + b[6] as u64 * 0x100 + b[7] as u64;
    high * 0x1_0000_0000 + low
}

/// The 8 bytes of `s` from `at` on.
pub fn take8(s: &[u8], at: usize) -> (r: [u8; 8])
    requires
        at + 8 <= s.len(),
    ensures
        r@ == s@.subrange(at as int, at + 8),
{
    let mut out: [u8; 8] = [0u8; 8];
    let mut i: usize = 0;
    while i < 8
        invariant
            0 <= i <= 8,
            at + 8 <= s.len(),
            forall|j: int| 0 <= j < i ==> out[j] == s[at + j],
        decreases 8 - i,
    {
        out[i] = s[at + i];
        i = i + 1;
    }
    assert(out@ =~= s@.subrange(at as int, at + 8));
    out
}

/// The 16 bytes of `s` from `at` on.
pub fn take16(s: &[u8], at: usize) -> (r: [u8; 16])
    requires
        at + 16 <= s.len(),
    ensures
        r@ == s@.subrange(at as int, at + 16),
{
    let mut out: [u8; 16] = [0u8; 16];
    let mut i: usize = 0;
    while i < 16
        invariant
            0 <= i <= 16,
            at + 16 <= s.len(),
            forall|j: int| 0 <= j < i ==> out[j] == s[at + j],
        decreases 16 - i,
    {
        out[i] = s[at + i];
        i = i + 1;
    }
    assert(out@ =~= s@.subrange(at as int, at + 16));
    out
}

/// The 32 bytes of `s` from `at` on.
pub fn take32(s: &[u8], at: usize) -> (r: [u8; 32])
    requires
        at + 32 <= s.len(),
    ensures
        r@ == s@.subrange(at as int, at + 32),
{
    let mut out: [u8; 32] = [0u8; 32];
    let mut i: usize = 0;
    while i < 32
        invariant
            0 <= i <= 32,
            at + 32 <= s.len(),
            forall|j: int| 0 <= j < i ==> out[j] == s[at + j],
        decreases 32 - i,
    {
        out[i] = s[at + i];
        i = i + 1;
    }
    assert(out@ =~= s@.subrange(at as int, at + 32));
    out
}

} // verus!
