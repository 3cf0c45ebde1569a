//! The mathematical model of bit-packed byte sequences.
//!
//! A byte sequence is viewed as a sequence of bits in little-bit-endian
//! stream order: bit 0 (the least significant bit) of byte 0 is the first
//! bit, bit 7 of byte 0 the eighth, then bit 0 of byte 1, and so on.

use vstd::prelude::*;

verus! {

/// True iff bit `i` (counting from the least significant end) of byte `b` is set.
pub open spec fn bit_of(b: u8, i: int) -> bool
    recommends
        0 <= i < 8,
{
    (b >> (i as u8)) & 1 == 1
}

/// The bits of a byte sequence in stream order: bit 0 of byte 0 first.
pub open spec fn bits_of(s: Seq<u8>) -> Seq<bool> {
    Seq::new(s.len() * 8, |i: int| bit_of(s[i / 8], i % 8))
}

/// `v` is the byte-packed form of the bit sequence `bs`: the bits of `v` in
/// stream order begin with `bs`, and the unused high bits of the final byte
/// are clear.
pub open spec fn packed_bits(v: Seq<u8>, bs: Seq<bool>) -> bool {
    &&& v.len() == (bs.len() + 7) / 8
    &&& (forall|k: int| 0 <= k < bs.len() ==> bits_of(v)[k] == bs[k])
    &&& (forall|k: int| bs.len() <= k < v.len() * 8 ==> !bits_of(v)[k])
}

/// Bit `8 * k + j` of a byte sequence lies in byte `k` at position `j`.
pub proof fn lemma_bit_index(k: int, j: int)
    requires
        0 <= j < 8,
    ensures
        (8 * k + j) / 8 == k,
        (8 * k + j) % 8 == j,
{
    vstd::arithmetic::div_mod::lemma_fundamental_div_mod_converse(8 * k + j, 8, k, j);
}

/// The bits of a concatenation are the concatenation of the bits.
pub proof fn lemma_bits_of_append(a: Seq<u8>, b: Seq<u8>)
    ensures
        bits_of(a + b) == bits_of(a) + bits_of(b),
{
    let lhs = bits_of(a + b);
    let rhs = bits_of(a) + bits_of(b);
    assert forall|i: int| 0 <= i < lhs.len() implies lhs[i] == rhs[i] by {
        vstd::arithmetic::div_mod::lemma_fundamental_div_mod(i, 8);
        if i < 8 * a.len() {
            assert(i / 8 < a.len());
        } else {
            let j = i - 8 * a.len();
            vstd::arithmetic::div_mod::lemma_fundamental_div_mod(j, 8);
            vstd::arithmetic::div_mod::lemma_fundamental_div_mod_converse(
                i,
                8,
                a.len() + j / 8,
                j % 8,
            );
        }
    }
    assert(lhs =~= rhs);
}

/// The bits of a single byte.
pub open spec fn byte_bits(b: u8) -> Seq<bool> {
    Seq::new(8, |i: int| bit_of(b, i))
}

/// Appending a byte appends its eight bits.
pub proof fn lemma_bits_of_push(s: Seq<u8>, b: u8)
    ensures
        bits_of(s.push(b)) == bits_of(s) + byte_bits(b),
{
    assert(s.push(b) =~= s + seq![b]);
    lemma_bits_of_append(s, seq![b]);
    assert forall|i: int| 0 <= i < 8 implies bits_of(seq![b])[i] == byte_bits(b)[i] by {
        lemma_bit_index(0, i);
    }
    assert(bits_of(seq![b]) =~= byte_bits(b));
}

/// Replacing byte `pos` changes only the bits of that byte, which become the
/// bits of the new byte.
pub proof fn lemma_bits_of_update(s: Seq<u8>, pos: int, b: u8)
    requires
        0 <= pos < s.len(),
    ensures
        bits_of(s.update(pos, b)).len() == bits_of(s).len(),
        forall|i: int|
            0 <= i < s.len() * 8 && i / 8 != pos ==> bits_of(s.update(pos, b))[i] == bits_of(s)[i],
        forall|j: int| 0 <= j < 8 ==> bits_of(s.update(pos, b))[8 * pos + j] == bit_of(b, j),
{
    assert forall|j: int| 0 <= j < 8 implies bits_of(s.update(pos, b))[8 * pos + j] == bit_of(
        b,
        j,
    ) by {
        lemma_bit_index(pos, j);
    }
}

/// No bit of the zero byte is set.
pub proof fn lemma_zero_byte_bits()
    ensures
        forall|j: int| 0 <= j < 8 ==> !bit_of(0u8, j),
{
    assert forall|j: int| 0 <= j < 8 implies !bit_of(0u8, j) by {
        let ju = j as u8;
        assert((0u8 >> ju) & 1 != 1) by (bit_vector);
    }
}

/// Two bytes that agree on each of their eight bits are equal.
pub proof fn lemma_byte_from_bits(a: u8, b: u8)
    requires
        forall|j: int| 0 <= j < 8 ==> bit_of(a, j) == bit_of(b, j),
    ensures
        a == b,
{
    assert(bit_of(a, 0) == bit_of(b, 0));
    assert(bit_of(a, 1) == bit_of(b, 1));
    assert(bit_of(a, 2) == bit_of(b, 2));
    assert(bit_of(a, 3) == bit_of(b, 3));
    assert(bit_of(a, 4) == bit_of(b, 4));
    assert(bit_of(a, 5) == bit_of(b, 5));
    assert(bit_of(a, 6) == bit_of(b, 6));
    assert(bit_of(a, 7) == bit_of(b, 7));
    assert(a == b) by (bit_vector)
        requires
            ((a >> 0u8) & 1 == 1) == ((b >> 0u8) & 1 == 1),
            ((a >> 1u8) & 1 == 1) == ((b >> 1u8) & 1 == 1),
            ((a >> 2u8) & 1 == 1) == ((b >> 2u8) & 1 == 1),
            ((a >> 3u8) & 1 == 1) == ((b >> 3u8) & 1 == 1),
            ((a >> 4u8) & 1 == 1) == ((b >> 4u8) & 1 == 1),
            ((a >> 5u8) & 1 == 1) == ((b >> 5u8) & 1 == 1),
            ((a >> 6u8) & 1 == 1) == ((b >> 6u8) & 1 == 1),
            ((a >> 7u8) & 1 == 1) == ((b >> 7u8) & 1 == 1),
    ;
}

/// Two byte sequences of equal length that agree on every bit are equal.
pub proof fn lemma_bytes_from_bits(a: Seq<u8>, b: Seq<u8>)
    requires
        a.len() == b.len(),
        forall|i: int| 0 <= i < a.len() * 8 ==> bits_of(a)[i] == bits_of(b)[i],
    ensures
        a == b,
{
    assert forall|p: int| 0 <= p < a.len() implies a[p] == b[p] by {
        assert forall|j: int| 0 <= j < 8 implies bit_of(a[p], j) == bit_of(b[p], j) by {
            lemma_bit_index(p, j);
            assert(0 <= 8 * p + j < a.len() * 8);
            assert(bits_of(a)[8 * p + j] == bits_of(b)[8 * p + j]);
        }
        lemma_byte_from_bits(a[p], b[p]);
    }
    assert(a =~= b);
}

/// Reads bit `i` of a byte.
pub fn get_bit(b: u8, i: usize) -> (r: bool)
    requires
        i < 8,
    ensures
        r == bit_of(b, i as int),
{
    let sh: u8 = i as u8;
    ((b >> sh) & 1) == 1
}

/// Returns `b` with bit `i` set to `v`; the other bits are unchanged.
pub fn set_bit(b: u8, i: usize, v: bool) -> (r: u8)
    requires
        i < 8,
    ensures
        forall|j: int| 0 <= j < 8 ==> bit_of(r, j) == (if j == i { v } else { bit_of(b, j) }),
{
    let sh: u8 = i as u8;
    let r = if v {
        b | (1u8 << sh)
    } else {
        b & !(1u8 << sh)
    };
    proof {
        assert forall|j: int| 0 <= j < 8 implies bit_of(r, j) == (if j == i {
            v
        } else {
            bit_of(b, j)
        }) by {
            let ju = j as u8;
            if v {
                assert(((b | (1u8 << sh)) >> ju) & 1 == (if ju == sh {
                    1u8
                } else {
                    (b >> ju) & 1
                })) by (bit_vector)
                    requires
                        sh < 8,
                        ju < 8,
                ;
            } else {
                assert(((b & !(1u8 << sh)) >> ju) & 1 == (if ju == sh {
                    0u8
                } else {
                    (b >> ju) & 1
                })) by (bit_vector)
                    requires
                        sh < 8,
                        ju < 8,
                ;
            }
        }
    }
    r
}

/// Law: the bit stream's write and read directions are inverse. If the
/// bytes `v` are the packed form of some already-present bits `p` followed
/// by newly written bits `w` — the state a write-mode stream flushes after
/// `w` is appended at bit offset `p.len()` — then reading `w.len()` bits at
/// that same offset from a fresh read-mode stream over `v` yields exactly
/// `w`, for every bit length and every cursor alignment.
pub proof fn lemma_write_read_inverse(p: Seq<bool>, w: Seq<bool>, v: Seq<u8>)
    requires
        packed_bits(v, p + w),
    ensures
        bits_of(v).subrange(p.len() as int, (p.len() + w.len()) as int) == w,
{
    let sub = bits_of(v).subrange(p.len() as int, (p.len() + w.len()) as int);
    assert forall|i: int| 0 <= i < w.len() implies sub[i] == w[i] by {
        assert(bits_of(v)[p.len() + i] == (p + w)[p.len() + i]);
    }
    assert(sub =~= w);
}

/// Appends one bit to a byte-packed accumulator that currently holds `n`
/// bits, keeping the unused high bits of the final byte clear.
pub fn push_packed_bit(buf: &mut Vec<u8>, n: usize, bitv: bool)
    requires
        old(buf)@.len() == (n + 7) / 8,
        n < usize::MAX,
        forall|i: int| n <= i < old(buf)@.len() * 8 ==> !bits_of(old(buf)@)[i],
    ensures
        final(buf)@.len() == (n + 1 + 7) / 8,
        forall|i: int| 0 <= i < n ==> bits_of(final(buf)@)[i] == bits_of(old(buf)@)[i],
        bits_of(final(buf)@)[n as int] == bitv,
        forall|i: int| n < i < final(buf)@.len() * 8 ==> !bits_of(final(buf)@)[i],
{
    let sub = n % 8;
    let ghost q = n as int / 8;
    proof {
        vstd::arithmetic::div_mod::lemma_fundamental_div_mod(n as int, 8);
        // n == 8 * q + sub
        if sub == 0 {
            vstd::arithmetic::div_mod::lemma_fundamental_div_mod_converse(n + 7, 8, q, 7);
            vstd::arithmetic::div_mod::lemma_fundamental_div_mod_converse(n + 8, 8, q + 1, 0);
        } else {
            vstd::arithmetic::div_mod::lemma_fundamental_div_mod_converse(
                n + 7,
                8,
                q + 1,
                sub as int - 1,
            );
            vstd::arithmetic::div_mod::lemma_fundamental_div_mod_converse(
                n + 8,
                8,
                q + 1,
                sub as int,
            );
        }
    }
    if sub == 0 {
        let ghost b0 = buf@;
        buf.push(0u8);
        proof {
            lemma_bits_of_push(b0, 0u8);
            lemma_zero_byte_bits();
            assert forall|i: int| n <= i < buf@.len() * 8 implies !bits_of(buf@)[i] by {
                if i < b0.len() * 8 {
                    assert(!bits_of(b0)[i]);
                } else {
                    assert(bits_of(buf@)[i] == byte_bits(0u8)[i - b0.len() * 8]);
                }
            }
        }
    }
    let ghost mid = buf@;
    let last = buf.len() - 1;
    let cur = buf[last];
    let nb = set_bit(cur, sub, bitv);
    buf[last] = nb;
    proof {
        assert(last == q);
        assert(8 * q + sub == n);
        lemma_bits_of_update(mid, q, nb);
        // every bit position splits into its byte and offset
        assert forall|i: int| 0 <= i < n implies bits_of(buf@)[i] == bits_of(old(buf)@)[i] by {
            vstd::arithmetic::div_mod::lemma_fundamental_div_mod(i, 8);
            if i / 8 == q {
                let j = i % 8;
                assert(j < sub);
                assert(bits_of(buf@)[8 * q + j] == bit_of(nb, j));
                assert(bit_of(nb, j) == bit_of(cur, j));
                assert(bits_of(mid)[8 * q + j] == bit_of(cur, j));
                assert(bits_of(mid)[i] == bits_of(old(buf)@)[i]);
            } else {
                assert(bits_of(buf@)[i] == bits_of(mid)[i]);
                assert(bits_of(mid)[i] == bits_of(old(buf)@)[i]);
            }
        }
        assert(bits_of(buf@)[8 * q + sub] == bit_of(nb, sub as int));
        assert(bit_of(nb, sub as int) == bitv);
        assert forall|i: int| n < i < buf@.len() * 8 implies !bits_of(buf@)[i] by {
            vstd::arithmetic::div_mod::lemma_fundamental_div_mod(i, 8);
            if i / 8 == q {
                let j = i % 8;
                assert(j > sub);
                assert(bits_of(buf@)[8 * q + j] == bit_of(nb, j));
                assert(bit_of(nb, j) == bit_of(cur, j));
                assert(bits_of(mid)[8 * q + j] == bit_of(cur, j));
                assert(!bits_of(mid)[i]);
            } else {
                assert(i / 8 > q);
                assert(bits_of(buf@)[i] == bits_of(mid)[i]);
                assert(!bits_of(mid)[i]);
            }
        }
    }
}

} // verus!
