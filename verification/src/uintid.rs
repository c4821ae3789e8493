//! Fixed-width identifiers: `GenericId` on `u64`.

use vstd::arithmetic::power2::{
    lemma2_to64, lemma2_to64_rest, lemma_pow2_pos, lemma_pow2_strictly_increases,
    lemma_pow2_unfold, pow2,
};
use vstd::bits::lemma_u64_shl_is_mul;
use vstd::prelude::*;

use crate::base::GenericId;
use crate::digits::{
    append_hex_u64, hex_digit_val, hex_text, hex_val, hex_value_of, is_hex, lemma_hex_text_len,
    lemma_hex_text_of_value, lemma_hex_text_shape, lemma_pow16_le, pow16,
};
use crate::random::{random_u64, random_u64_below};

verus! {

/// Bit length of a 64-bit value: position of the highest set bit plus one.
pub open spec fn u64_bit_len(a: u64) -> nat
    decreases a,
{
    if a == 0 {
        0
    } else {
        u64_bit_len(a / 2) + 1
    }
}

/// Values below a power of two have bit length at most the exponent.
pub proof fn lemma_u64_bit_len_bound(a: u64, k: nat)
    requires
        (a as nat) < pow2(k),
    ensures
        u64_bit_len(a) <= k,
    decreases k,
{
    if a != 0 {
        if k == 0 {
            lemma2_to64();
        } else {
            lemma_pow2_unfold(k);
            lemma_u64_bit_len_bound(a / 2, (k - 1) as nat);
        }
    }
}

/// Every 64-bit value has bit length at most 64.
pub proof fn lemma_u64_bit_len_max(a: u64)
    ensures
        u64_bit_len(a) <= 64,
{
    lemma2_to64_rest();
    lemma_u64_bit_len_bound(a, 64);
}

impl GenericId for u64 {
    open spec fn width_v(a: u64) -> nat {
        64
    }

    open spec fn xor_v(a: u64, b: u64) -> u64 {
        a ^ b
    }

    open spec fn is_zero_v(a: u64) -> bool {
        a == 0
    }

    open spec fn bits_v(a: u64) -> nat {
        u64_bit_len(a)
    }

    open spec fn le_v(a: u64, b: u64) -> bool {
        a <= b
    }

    open spec fn gen_ok(bit_size: usize) -> bool {
        bit_size <= 64
    }

    open spec fn gen_width(bit_size: usize) -> nat {
        64
    }

    proof fn lemma_xor_comm(a: u64, b: u64) {
        assert(a ^ b == b ^ a) by (bit_vector);
    }

    proof fn lemma_xor_self(a: u64) {
        assert(a ^ a == 0) by (bit_vector);
    }

    proof fn lemma_xor_zero(a: u64, b: u64) {
        assert((a ^ b == 0) == (a == b)) by (bit_vector);
    }

    proof fn lemma_xor_width(a: u64, b: u64) {
    }

    proof fn lemma_le_total(a: u64, b: u64) {
    }

    proof fn lemma_le_trans(a: u64, b: u64, c: u64) {
    }

    proof fn lemma_le_zero(a: u64, b: u64) {
    }

    proof fn lemma_bits_range(a: u64) {
        lemma_u64_bit_len_max(a);
    }

    fn bitxor(&self, other: &u64) -> (r: u64) {
        *self ^ *other
    }

    fn is_zero(&self) -> (r: bool) {
        *self == 0
    }

    fn bits(&self) -> (r: usize) {
        let mut v: u64 = *self;
        let mut n: usize = 0;
        proof {
            lemma_u64_bit_len_max(*self);
        }
        while v > 0
            invariant
                u64_bit_len(*self) == u64_bit_len(v) + n,
                u64_bit_len(*self) <= 64,
            decreases v,
        {
            v = v / 2;
            n = n + 1;
        }
        n
    }

    fn le(&self, other: &u64) -> (r: bool) {
        *self <= *other
    }

    fn eq_id(&self, other: &u64) -> (r: bool) {
        *self == *other
    }

    fn duplicate(&self) -> (r: u64) {
        *self
    }

    fn gen(bit_size: usize) -> (r: u64) {
        if bit_size == 64 {
            let r = random_u64();
            proof {
                lemma_u64_bit_len_max(r);
            }
            r
        } else {
            proof {
                lemma_pow2_pos(bit_size as nat);
                lemma_pow2_strictly_increases(bit_size as nat, 64);
                lemma2_to64_rest();
                lemma_u64_shl_is_mul(1u64, bit_size as u64);
            }
            let bound: u64 = 1u64 << (bit_size as u64);
            let r = random_u64_below(bound);
            proof {
                lemma_u64_bit_len_bound(r, bit_size as nat);
            }
            r
        }
    }

    open spec fn text_v(a: u64) -> Seq<char> {
        hex_text(a)
    }

    proof fn lemma_text_injective(a: u64, b: u64) {
        lemma_hex_text_shape(a);
        lemma_hex_text_shape(b);
    }

    fn encode(&self) -> (r: String) {
        let mut out = String::new();
        append_hex_u64(&mut out, *self);
        proof {
            assert(out@ =~= hex_text(*self));
        }
        out
    }

    fn decode(s: &str) -> (r: Option<u64>) {
        let n = s.unicode_len();
        if n < 1 || n > 16 {
            proof {
                assert forall|a: u64| s@ != hex_text(a) by {
                    lemma_hex_text_shape(a);
                    lemma_hex_text_len(a);
                }
            }
            return None;
        }
        let mut i: usize = 0;
        let mut acc: u64 = 0;
        while i < n
            invariant
                1 <= n <= 16,
                n == s@.len(),
                i <= n,
                forall|j: int| 0 <= j < i ==> is_hex(#[trigger] s@[j]),
                n > 1 && i > 0 ==> s@[0] != '0',
                acc as nat == hex_value_of(s@.take(i as int)),
                (acc as nat) < pow16(i as nat),
            decreases n - i,
        {
            let c = s.get_char(i);
            let d = hex_digit_val(c);
            if d >= 16 {
                proof {
                    assert forall|a: u64| s@ != hex_text(a) by {
                        lemma_hex_text_shape(a);
                        if s@ == hex_text(a) {
                            assert(is_hex(s@[i as int]));
                        }
                    }
                }
                return None;
            }
            if n > 1 && i == 0 && d == 0 {
                proof {
                    assert(c == '0');
                    assert forall|a: u64| s@ != hex_text(a) by {
                        lemma_hex_text_shape(a);
                    }
                }
                return None;
            }
            proof {
                assert(s@.take(i as int + 1).drop_last() =~= s@.take(i as int));
                assert(s@.take(i as int + 1).last() == s@[i as int]);
                assert(pow16(15) == 0x1000000000000000 && pow16(16) == 0x10000000000000000) by {
                    reveal_with_fuel(pow16, 17);
                }
                lemma_pow16_le(i as nat, 15);
            }
            acc = acc * 16 + (d as u64);
            i = i + 1;
        }
        proof {
            assert(s@.take(n as int) =~= s@);
            lemma_hex_text_of_value(s@);
        }
        Some(acc)
    }
}

} // verus!
