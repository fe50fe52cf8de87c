use vstd::prelude::*;
use vstd::arithmetic::power2::*;

verus! {

/// The numeric value of a bit sequence read least-significant-bit first
/// (bit 0 of the value comes first in the sequence).
pub open spec fn bits_value(s: Seq<bool>) -> nat
    decreases s.len(),
{
    if s.len() == 0 {
        0
    } else {
        (if s[0] {
            1nat
        } else {
            0nat
        }) + 2 * bits_value(s.skip(1))
    }
}

/// The numeric value of a bit sequence read most-significant-bit first
/// (the last element of the sequence is bit 0 of the value).
pub open spec fn bits_value_be(s: Seq<bool>) -> nat
    decreases s.len(),
{
    if s.len() == 0 {
        0
    } else {
        2 * bits_value_be(s.drop_last()) + (if s.last() {
            1nat
        } else {
            0nat
        })
    }
}

/// Appending a bit to a little-endian sequence adds it at weight `pow2(len)`.
pub proof fn lemma_bits_value_push(s: Seq<bool>, b: bool)
    ensures
        bits_value(s.push(b)) == bits_value(s) + (if b {
            pow2(s.len())
        } else {
            0nat
        }),
    decreases s.len(),
{
    let t = s.push(b);
    if s.len() == 0 {
        assert(t[0] == b);
        assert(t.skip(1) =~= Seq::<bool>::empty());
        assert(bits_value(t.skip(1)) == 0);
        assert(bits_value(t) == (if t[0] {
            1nat
        } else {
            0nat
        }) + 2 * bits_value(t.skip(1)));
        assert(pow2(0) == 1) by {
            lemma2_to64();
        }
    } else {
        assert(t[0] == s[0]);
        assert(t.skip(1) =~= s.skip(1).push(b));
        lemma_bits_value_push(s.skip(1), b);
        lemma_pow2_unfold(s.len());
        assert(bits_value(t) == (if t[0] {
            1nat
        } else {
            0nat
        }) + 2 * bits_value(t.skip(1)));
        assert(bits_value(s) == (if s[0] {
            1nat
        } else {
            0nat
        }) + 2 * bits_value(s.skip(1)));
        assert(bits_value(t.skip(1)) == bits_value(s.skip(1)) + (if b {
            pow2((s.len() - 1) as nat)
        } else {
            0nat
        }));
    }
}

/// A little-endian bit sequence is bounded by `pow2` of its length.
pub proof fn lemma_bits_value_bound(s: Seq<bool>)
    ensures
        bits_value(s) < pow2(s.len()),
    decreases s.len(),
{
    if s.len() == 0 {
        assert(pow2(0) == 1) by {
            lemma2_to64();
        }
    } else {
        lemma_bits_value_bound(s.skip(1));
        lemma_pow2_unfold(s.len());
    }
}

/// A big-endian bit sequence is bounded by `pow2` of its length.
pub proof fn lemma_bits_value_be_bound(s: Seq<bool>)
    ensures
        bits_value_be(s) < pow2(s.len()),
    decreases s.len(),
{
    if s.len() == 0 {
        assert(pow2(0) == 1) by {
            lemma2_to64();
        }
    } else {
        lemma_bits_value_be_bound(s.drop_last());
        lemma_pow2_unfold(s.len());
    }
}

/// Emits the 64 bits of `x` in little-endian bit order (bit 0 first).
pub fn u64_to_bits(x: u64) -> (r: Vec<bool>)
    ensures
        r@.len() == 64,
        bits_value(r@) == x as nat,
{
    let mut bits: Vec<bool> = Vec::new();
    let mut y: u64 = x;
    let mut i: usize = 0;
    proof {
        assert(pow2(0) == 1 && pow2(64) == 0x10000000000000000) by {
            lemma2_to64();
        }
    }
    while i < 64
        invariant
            i <= 64,
            bits@.len() == i,
            x as nat == bits_value(bits@) + (y as nat) * pow2(i as nat),
            y < pow2((64 - i) as nat),
        decreases 64 - i,
    {
        let ghost old_bits = bits@;
        let ghost oy = y as nat;
        let b = y % 2 == 1;
        bits.push(b);
        y = y / 2;
        proof {
            lemma_bits_value_push(old_bits, b);
            assert(bits@ == old_bits.push(b));
            assert(bits_value(bits@) == bits_value(old_bits) + (if b {
                pow2(i as nat)
            } else {
                0nat
            }));
            lemma_pow2_unfold((i + 1) as nat);
            assert(pow2((i + 1) as nat) == 2 * pow2(i as nat));
            assert((if b {
                1nat
            } else {
                0nat
            }) == oy % 2);
            assert(y as nat == oy / 2);
            assert(oy * pow2(i as nat) == (oy % 2) * pow2(i as nat) + (oy / 2) * (2 * pow2(
                i as nat,
            ))) by (nonlinear_arith);
            assert(x as nat == bits_value(old_bits) + oy * pow2(i as nat));
            assert(x as nat == bits_value(bits@) + (y as nat) * pow2((i + 1) as nat));
            assert(y < pow2((64 - (i + 1)) as nat)) by {
                lemma_pow2_unfold((64 - i) as nat);
            }
        }
        i = i + 1;
    }
    proof {
        assert(pow2(0) == 1) by {
            lemma2_to64();
        }
        assert(y == 0);
    }
    bits
}

/// Reads 64 bits in little-endian bit order back into a value.
pub fn bits_to_u64(bits: &Vec<bool>) -> (r: u64)
    requires
        bits@.len() == 64,
    ensures
        r as nat == bits_value(bits@),
{
    let mut x: u64 = 0;
    let mut i: usize = 64;
    proof {
        assert(bits@.skip(64) =~= Seq::<bool>::empty());
    }
    while i > 0
        invariant
            i <= 64,
            bits@.len() == 64,
            x as nat == bits_value(bits@.skip(i as int)),
        decreases i,
    {
        i = i - 1;
        proof {
            assert(bits@.skip(i as int).skip(1) =~= bits@.skip(i as int + 1));
            lemma_bits_value_bound(bits@.skip(i as int + 1));
            if i > 0 {
                lemma_pow2_strictly_increases((63 - i) as nat, 63);
            }
            assert(pow2(63) == 0x8000000000000000) by {
                lemma2_to64_rest();
            }
        }
        x = x * 2 + (if bits[i] {
            1
        } else {
            0
        });
    }
    proof {
        assert(bits@.skip(0) =~= bits@);
    }
    x
}

/// Emits the 8 bits of `x` in big-endian bit order (bit 7 first).
pub fn u8_to_bits(x: u8) -> (r: Vec<bool>)
    ensures
        r@.len() == 8,
        bits_value_be(r@) == x as nat,
{
    let mut bits: Vec<bool> = Vec::new();
    let mut y: u8 = x;
    let mut p: u8 = 128;
    let mut i: usize = 0;
    proof {
        assert(pow2(7) == 128 && pow2(8) == 256) by {
            lemma2_to64();
        }
    }
    while i < 8
        invariant
            i <= 8,
            bits@.len() == i,
            i < 8 ==> p as nat == pow2((7 - i) as nat),
            y < pow2((8 - i) as nat),
            x as nat == bits_value_be(bits@) * pow2((8 - i) as nat) + y as nat,
        decreases 8 - i,
    {
        let ghost old_bits = bits@;
        let ghost ov = bits_value_be(bits@);
        let ghost oy = y as nat;
        let b = y >= p;
        if b {
            y = y - p;
        }
        bits.push(b);
        proof {
            assert(bits@.drop_last() =~= old_bits);
            assert(bits@.last() == b);
            let bitn: nat = if b {
                1
            } else {
                0
            };
            assert(bits_value_be(bits@) == 2 * ov + bitn);
            lemma_pow2_unfold((8 - i) as nat);
            let pw = pow2((7 - i) as nat);
            assert(ov * (2 * pw) == (2 * ov) * pw) by (nonlinear_arith);
            assert((2 * ov + bitn) * pw == (2 * ov) * pw + bitn * pw) by (nonlinear_arith);
            assert(x as nat == (2 * ov + bitn) * pw + y as nat);
        }
        if i < 7 {
            p = p / 2;
            proof {
                lemma_pow2_unfold((7 - i) as nat);
            }
        }
        i = i + 1;
    }
    proof {
        assert(pow2(0) == 1) by {
            lemma2_to64();
        }
        assert(y == 0);
        assert(bits_value_be(bits@) * 1 == bits_value_be(bits@)) by (nonlinear_arith);
    }
    bits
}

/// Reads 8 bits in big-endian bit order back into a value.
pub fn bits_to_u8(bits: &Vec<bool>) -> (r: u8)
    requires
        bits@.len() == 8,
    ensures
        r as nat == bits_value_be(bits@),
{
    let mut x: u8 = 0;
    let mut i: usize = 0;
    proof {
        assert(bits@.subrange(0, 0) =~= Seq::<bool>::empty());
    }
    while i < 8
        invariant
            i <= 8,
            bits@.len() == 8,
            x as nat == bits_value_be(bits@.subrange(0, i as int)),
        decreases 8 - i,
    {
        proof {
            assert(bits@.subrange(0, i as int + 1).drop_last() =~= bits@.subrange(0, i as int));
            assert(bits@.subrange(0, i as int + 1).last() == bits@[i as int]);
            lemma_bits_value_be_bound(bits@.subrange(0, i as int));
            if i < 7 {
                lemma_pow2_strictly_increases(i as nat, 7);
            }
            assert(pow2(7) == 128) by {
                lemma2_to64();
            }
        }
        x = x * 2 + (if bits[i] {
            1
        } else {
            0
        });
        i = i + 1;
    }
    proof {
        assert(bits@.subrange(0, 8) =~= bits@);
    }
    x
}

} // verus!
