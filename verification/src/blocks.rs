use vstd::prelude::*;

verus! {

/// Pointwise XOR of two equal-length byte sequences.
pub open spec fn xor_seq(a: Seq<u8>, b: Seq<u8>) -> Seq<u8> {
    Seq::new(a.len(), |i: int| a[i] ^ b[i])
}

/// The all-zero byte sequence of length `n`.
pub open spec fn zero_seq(n: nat) -> Seq<u8> {
    Seq::new(n, |i: int| 0u8)
}

/// The views of a sequence of byte strings.
pub open spec fn row_views(rows: Seq<Vec<u8>>) -> Seq<Seq<u8>> {
    rows.map_values(|v: Vec<u8>| v@)
}

/// The least-significant bit of a byte string's first byte.
pub open spec fn lsb(s: Seq<u8>) -> bool {
    s[0] & 1 == 1
}

/// Lane-wise XOR of two equal-length byte blocks.
pub fn xor_blocks(a: &Vec<u8>, b: &Vec<u8>) -> (r: Vec<u8>)
    requires
        a@.len() == b@.len(),
    ensures
        r@ == xor_seq(a@, b@),
{
    let mut out: Vec<u8> = Vec::new();
    let mut i: usize = 0;
    while i < a.len()
        invariant
            a@.len() == b@.len(),
            i <= a@.len(),
            out@ =~= xor_seq(a@, b@).take(i as int),
        decreases a@.len() - i,
    {
        out.push(a[i] ^ b[i]);
        assert(out@ =~= xor_seq(a@, b@).take(i + 1));
        i = i + 1;
    }
    assert(out@ =~= xor_seq(a@, b@));
    out
}

/// A fresh all-zero block of `n` bytes.
pub fn zero_block(n: usize) -> (r: Vec<u8>)
    ensures
        r@ == zero_seq(n as nat),
{
    let mut out: Vec<u8> = Vec::new();
    let mut i: usize = 0;
    while i < n
        invariant
            i <= n,
            out@ =~= zero_seq(i as nat),
        decreases n - i,
    {
        out.push(0u8);
        assert(out@ =~= zero_seq((i + 1) as nat));
        i = i + 1;
    }
    out
}

/// Reads the least-significant bit of the first byte.
pub fn get_lsb(s: &Vec<u8>) -> (r: bool)
    requires
        s@.len() > 0,
    ensures
        r == lsb(s@),
{
    s[0] & 1 == 1
}

/// Sets or clears the least-significant bit of the first byte,
/// preserving every other bit.
pub fn set_lsb(s: &mut Vec<u8>, b: bool)
    requires
        old(s)@.len() > 0,
    ensures
        final(s)@ == old(s)@.update(
            0,
            if b {
                old(s)@[0] | 1
            } else {
                old(s)@[0] & 0xfe
            },
        ),
        lsb(final(s)@) == b,
{
    let v = s[0];
    if b {
        s[0] = v | 1;
        assert((v | 1) & 1 == 1) by (bit_vector);
    } else {
        s[0] = v & 0xfe;
        assert((v & 0xfe) & 1 != 1) by (bit_vector);
    }
}

/// A copy of a byte string with the same contents.
pub fn clone_label(v: &Vec<u8>) -> (r: Vec<u8>)
    ensures
        r@ == v@,
{
    let r = v.clone();
    proof {
        assert forall|i: int| 0 <= i < v@.len() implies r@[i] == v@[i] by {
            assert(cloned::<u8>(v[i], r[i]));
        }
        assert(r@ =~= v@);
    }
    r
}

/// Equality of two byte strings.
pub fn eq(a: &Vec<u8>, b: &Vec<u8>) -> (r: bool)
    ensures
        r == (a@ == b@),
{
    if a.len() != b.len() {
        assert(a@ != b@);
        return false;
    }
    let mut i: usize = 0;
    while i < a.len()
        invariant
            a@.len() == b@.len(),
            i <= a@.len(),
            forall|j: int| 0 <= j < i ==> a@[j] == b@[j],
        decreases a@.len() - i,
    {
        if a[i] != b[i] {
            return false;
        }
        i = i + 1;
    }
    proof {
        assert(a@ =~= b@);
    }
    true
}

/// XOR of byte strings is associative.
pub proof fn lemma_xor_assoc(a: Seq<u8>, b: Seq<u8>, c: Seq<u8>)
    requires
        a.len() == b.len(),
        b.len() == c.len(),
    ensures
        xor_seq(xor_seq(a, b), c) == xor_seq(a, xor_seq(b, c)),
{
    assert forall|i: int| 0 <= i < a.len() implies xor_seq(xor_seq(a, b), c)[i] == xor_seq(
        a,
        xor_seq(b, c),
    )[i] by {
        let x = a[i];
        let y = b[i];
        let z = c[i];
        assert((x ^ y) ^ z == x ^ (y ^ z)) by (bit_vector);
    }
    assert(xor_seq(xor_seq(a, b), c) =~= xor_seq(a, xor_seq(b, c)));
}

/// A byte string XORed with itself is all zeros.
pub proof fn lemma_xor_self(a: Seq<u8>)
    ensures
        xor_seq(a, a) == zero_seq(a.len()),
{
    assert forall|i: int| 0 <= i < a.len() implies xor_seq(a, a)[i] == 0u8 by {
        let x = a[i];
        assert(x ^ x == 0) by (bit_vector);
    }
    assert(xor_seq(a, a) =~= zero_seq(a.len()));
}

/// The all-zero string is the XOR identity.
pub proof fn lemma_xor_zero(a: Seq<u8>)
    ensures
        xor_seq(a, zero_seq(a.len())) == a,
        xor_seq(zero_seq(a.len()), a) == a,
{
    assert forall|i: int| 0 <= i < a.len() implies xor_seq(a, zero_seq(a.len()))[i] == a[i]
        && xor_seq(zero_seq(a.len()), a)[i] == a[i] by {
        let x = a[i];
        assert(x ^ 0 == x && 0 ^ x == x) by (bit_vector);
    }
    assert(xor_seq(a, zero_seq(a.len())) =~= a);
    assert(xor_seq(zero_seq(a.len()), a) =~= a);
}

/// XOR of byte strings regroups across two pairs.
pub proof fn lemma_xor_exchange(a: Seq<u8>, b: Seq<u8>, c: Seq<u8>, d: Seq<u8>)
    requires
        a.len() == b.len(),
        b.len() == c.len(),
        c.len() == d.len(),
    ensures
        xor_seq(xor_seq(a, b), xor_seq(c, d)) == xor_seq(xor_seq(a, c), xor_seq(b, d)),
{
    assert forall|i: int| 0 <= i < a.len() implies xor_seq(xor_seq(a, b), xor_seq(c, d))[i]
        == xor_seq(xor_seq(a, c), xor_seq(b, d))[i] by {
        let x = a[i];
        let y = b[i];
        let z = c[i];
        let w = d[i];
        assert((x ^ y) ^ (z ^ w) == (x ^ z) ^ (y ^ w)) by (bit_vector);
    }
    assert(xor_seq(xor_seq(a, b), xor_seq(c, d)) =~= xor_seq(xor_seq(a, c), xor_seq(b, d)));
}

/// XOR of byte strings lets the last two operands trade places.
pub proof fn lemma_xor_swap_right(a: Seq<u8>, b: Seq<u8>, c: Seq<u8>)
    requires
        a.len() == b.len(),
        b.len() == c.len(),
    ensures
        xor_seq(xor_seq(a, b), c) == xor_seq(xor_seq(a, c), b),
{
    assert forall|i: int| 0 <= i < a.len() implies xor_seq(xor_seq(a, b), c)[i] == xor_seq(
        xor_seq(a, c),
        b,
    )[i] by {
        let x = a[i];
        let y = b[i];
        let z = c[i];
        assert((x ^ y) ^ z == (x ^ z) ^ y) by (bit_vector);
    }
    assert(xor_seq(xor_seq(a, b), c) =~= xor_seq(xor_seq(a, c), b));
}

/// The low bit of an XOR is the XOR of the low bits.
pub proof fn lemma_lsb_xor(a: Seq<u8>, b: Seq<u8>)
    requires
        a.len() == b.len(),
        a.len() > 0,
    ensures
        lsb(xor_seq(a, b)) == (lsb(a) != lsb(b)),
{
    let x = a[0];
    let y = b[0];
    assert(((x ^ y) & 1 == 1) == ((x & 1 == 1) != (y & 1 == 1))) by (bit_vector);
}

/// XORing the same string twice restores the original.
pub proof fn lemma_xor_cancel(a: Seq<u8>, b: Seq<u8>)
    requires
        a.len() == b.len(),
    ensures
        xor_seq(xor_seq(a, b), b) == a,
{
    assert forall|i: int| 0 <= i < a.len() implies xor_seq(xor_seq(a, b), b)[i] == a[i] by {
        let x = a[i];
        let y = b[i];
        assert((x ^ y) ^ y == x) by (bit_vector);
    }
    assert(xor_seq(xor_seq(a, b), b) =~= a);
}

} // verus!
