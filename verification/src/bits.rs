//! Packed bit strings.
//!
//! Network inputs and outputs travel as byte vectors; each byte carries eight
//! bits, most significant first.  This module converts between bytes and
//! explicit bit sequences and counts agreeing bit positions.

use vstd::prelude::*;

verus! {

/// Bit `j` (0 = most significant) of one byte.
pub open spec fn byte_bit(b: u8, j: int) -> bool {
    (b >> ((7 - j) as u8)) & 1 == 1
}

/// The bit string a byte string carries, most significant bit first.
pub open spec fn bits_of(bytes: Seq<u8>) -> Seq<bool> {
    Seq::new(bytes.len() * 8, |i: int| byte_bit(bytes[i / 8], i % 8))
}

/// How many of the first `k` positions of two bit strings agree.
pub open spec fn count_eq(a: Seq<bool>, b: Seq<bool>, k: int) -> int
    decreases k,
{
    if k <= 0 {
        0
    } else {
        count_eq(a, b, k - 1) + if a[k - 1] == b[k - 1] {
            1int
        } else {
            0int
        }
    }
}

/// The agreement count over `k` positions lies between 0 and `k`.
pub proof fn lemma_count_eq_bound(a: Seq<bool>, b: Seq<bool>, k: int)
    requires
        k >= 0,
    ensures
        0 <= count_eq(a, b, k) <= k,
    decreases k,
{
    if k > 0 {
        lemma_count_eq_bound(a, b, k - 1);
    }
}

/// Unpack a byte string into its bit string.
#[verifier::loop_isolation(false)]
pub fn unpack_bits(bytes: &Vec<u8>) -> (r: Vec<bool>)
    requires
        bytes@.len() <= 0x1000_0000,
    ensures
        r@ == bits_of(bytes@),
{
    let n = bytes.len();
    let mut r: Vec<bool> = Vec::new();
    let mut i: usize = 0;
    while i < n
        invariant
            i <= n,
            r@.len() == 8 * i,
            r@ =~= bits_of(bytes@).take(8 * i as int),
        decreases n - i,
    {
        let b = bytes[i];
        let mut k: usize = 0;
        while k < 8
            invariant
                k <= 8,
                b == bytes@[i as int],
                r@.len() == 8 * i + k,
                r@ =~= bits_of(bytes@).take(8 * i + k),
            decreases 8 - k,
        {
            let sh: u8 = (7 - k) as u8;
            r.push((b >> sh) & 1 == 1);
            proof {
                let pos = 8 * (i as int) + k;
                assert(pos / 8 == i && pos % 8 == k) by (nonlinear_arith)
                    requires
                        0 <= k < 8,
                        0 <= i,
                        pos == 8 * (i as int) + k,
                ;
                assert(r@ =~= bits_of(bytes@).take(pos + 1));
            }
            k += 1;
        }
        i += 1;
    }
    assert(r@ =~= bits_of(bytes@));
    r
}

/// Setting one bit of a byte leaves every other bit as it was.
proof fn lemma_or_bit(x: u8, k: u8, j: u8)
    requires
        k < 8,
        j < 8,
    ensures
        byte_bit(x | (1u8 << ((7 - k) as u8)), j as int) == (j == k || byte_bit(x, j as int)),
{
    let y = x | (1u8 << ((7 - k) as u8));
    assert((y >> ((7 - j) as u8)) & 1 == (if j == k {
        1u8
    } else {
        (x >> ((7 - j) as u8)) & 1
    })) by (bit_vector)
        requires
            y == x | (1u8 << ((7 - k) as u8)),
            k < 8,
            j < 8,
    ;
    assert(((7 - (j as int)) as u8) == (7 - j) as u8);
}

/// Every bit of the zero byte is clear.
proof fn lemma_zero_bits(j: int)
    requires
        0 <= j < 8,
    ensures
        !byte_bit(0u8, j),
{
    let sh = (7 - j) as u8;
    assert((0u8 >> sh) & 1 == 0) by (bit_vector);
}

/// Pack a bit string whose length is a multiple of eight into bytes.
#[verifier::loop_isolation(false)]
pub fn pack_bits(bits: &Vec<bool>) -> (r: Vec<u8>)
    requires
        bits@.len() % 8 == 0,
    ensures
        r@.len() * 8 == bits@.len(),
        bits_of(r@) == bits@,
{
    let total = bits.len();
    let n = total / 8;
    let mut r: Vec<u8> = Vec::new();
    let mut i: usize = 0;
    while i < n
        invariant
            i <= n,
            r@.len() == i,
            forall|p: int|
                0 <= p < 8 * i ==> #[trigger] byte_bit(r@[p / 8], p % 8) == bits@[p],
        decreases n - i,
    {
        let mut byte: u8 = 0;
        proof {
            assert forall|j: int| 0 <= j < 8 implies !byte_bit(0u8, j) by {
                lemma_zero_bits(j);
            }
        }
        let mut k: usize = 0;
        while k < 8
            invariant
                k <= 8,
                i < n,
                forall|j: int|
                    0 <= j < 8 ==> #[trigger] byte_bit(byte, j) == (j < k && bits@[8 * i + j]),
            decreases 8 - k,
        {
            let ghost prev = byte;
            if bits[8 * i + k] {
                byte = byte | (1u8 << ((7 - k) as u8));
            }
            proof {
                assert forall|j: int| 0 <= j < 8 implies #[trigger] byte_bit(byte, j) == (j < k + 1
                    && bits@[8 * i + j]) by {
                    if bits@[8 * (i as int) + k] {
                        lemma_or_bit(prev, k as u8, j as u8);
                    }
                }
            }
            k += 1;
        }
        r.push(byte);
        proof {
            assert forall|p: int| 0 <= p < 8 * (i + 1) implies #[trigger] byte_bit(
                r@[p / 8],
                p % 8,
            ) == bits@[p] by {
                if p >= 8 * i {
                    assert(p / 8 == i && p % 8 == p - 8 * (i as int)) by (nonlinear_arith)
                        requires
                            8 * i <= p < 8 * (i as int) + 8,
                            0 <= i,
                    ;
                }
            }
        }
        i += 1;
    }
    proof {
        assert(8 * (n as int) == bits@.len());
        assert(bits_of(r@) =~= bits@);
    }
    r
}

/// Count the bit positions where two byte strings agree, over the shorter.
#[verifier::loop_isolation(false)]
pub fn count_matching_bits(x: &Vec<u8>, y: &Vec<u8>) -> (r: u64)
    requires
        x@.len() <= 0x1000_0000,
        y@.len() <= 0x1000_0000,
    ensures
        r == count_eq(
            bits_of(x@),
            bits_of(y@),
            if x@.len() <= y@.len() {
                x@.len() * 8
            } else {
                y@.len() * 8
            } as int,
        ),
{
    let xb = unpack_bits(x);
    let yb = unpack_bits(y);
    let m = if xb.len() <= yb.len() {
        xb.len()
    } else {
        yb.len()
    };
    let mut cnt: u64 = 0;
    let mut i: usize = 0;
    while i < m
        invariant
            i <= m,
            cnt == count_eq(bits_of(x@), bits_of(y@), i as int),
            cnt <= i,
        decreases m - i,
    {
        if xb[i] == yb[i] {
            cnt += 1;
        }
        i += 1;
    }
    cnt
}

} // verus!
