//! Variable-length byte-string identifiers: `GenericId` on `Vec<u8>`.
//!
//! Bytes are in big-endian order: the first byte is the most significant.

use vstd::arithmetic::power2::{lemma2_to64, pow2};
use vstd::prelude::*;

use crate::base::GenericId;
use crate::digits::{
    byte_hex, bytes_hex_text, bytes_of_hex, hex_digit_val, hex_str, is_hex,
    lemma_bytes_hex_of_value, lemma_bytes_hex_shape,
};
use crate::random::{random_u64_below, random_u8};
use crate::uintid::{lemma_u64_bit_len_bound, u64_bit_len};

verus! {

/// Bit length of one byte.
pub open spec fn byte_bit_len(b: u8) -> nat {
    u64_bit_len(b as u64)
}

/// Bit length of a big-endian byte string: leading zero bytes carry no
/// bits; the first non-zero byte contributes its own bit length.
pub open spec fn bytes_bit_len(s: Seq<u8>) -> nat
    decreases s.len(),
{
    if s.len() == 0 {
        0
    } else if s[0] == 0 {
        bytes_bit_len(s.drop_first())
    } else {
        (8 * (s.len() - 1) + byte_bit_len(s[0])) as nat
    }
}

/// Lexicographic (equivalently: big-endian magnitude) order on byte
/// strings of equal length; a proper prefix sorts first.
pub open spec fn bytes_le(a: Seq<u8>, b: Seq<u8>) -> bool
    decreases a.len(),
{
    if a.len() == 0 {
        true
    } else if b.len() == 0 {
        false
    } else if a[0] < b[0] {
        true
    } else if a[0] > b[0] {
        false
    } else {
        bytes_le(a.drop_first(), b.drop_first())
    }
}

/// The bit length never exceeds eight bits per byte.
proof fn lemma_bytes_bit_len_width(s: Seq<u8>)
    ensures
        bytes_bit_len(s) <= 8 * s.len(),
    decreases s.len(),
{
    if s.len() > 0 {
        if s[0] == 0 {
            lemma_bytes_bit_len_width(s.drop_first());
        } else {
            lemma2_to64();
            lemma_u64_bit_len_bound(s[0] as u64, 8);
        }
    }
}

/// The bit length is zero exactly on all-zero byte strings.
proof fn lemma_bytes_bit_len_zero(s: Seq<u8>)
    ensures
        (bytes_bit_len(s) == 0) <==> (forall|i: int| 0 <= i < s.len() ==> s[i] == 0),
    decreases s.len(),
{
    if s.len() > 0 {
        lemma_bytes_bit_len_zero(s.drop_first());
        if s[0] == 0 {
            assert forall|i: int| 0 <= i < s.len() && bytes_bit_len(s) == 0 implies s[i]
                == 0 by {
                if i > 0 {
                    assert(s.drop_first()[i - 1] == s[i]);
                }
            }
            if forall|i: int| 0 <= i < s.len() ==> s[i] == 0 {
                assert forall|i: int| 0 <= i < s.drop_first().len() implies s.drop_first()[i]
                    == 0 by {
                    assert(s[i + 1] == 0);
                }
            }
        }
    }
}

/// Skipping a run of leading zero bytes keeps the bit length.
proof fn lemma_bytes_bit_len_skip(s: Seq<u8>, i: int)
    requires
        0 <= i <= s.len(),
        forall|j: int| 0 <= j < i ==> s[j] == 0,
    ensures
        bytes_bit_len(s) == bytes_bit_len(s.skip(i)),
    decreases i,
{
    if i > 0 {
        assert(s.drop_first().skip(i - 1) =~= s.skip(i));
        assert forall|j: int| 0 <= j < i - 1 implies s.drop_first()[j] == 0 by {
            assert(s[j + 1] == 0);
        }
        lemma_bytes_bit_len_skip(s.drop_first(), i - 1);
    } else {
        assert(s.skip(0) =~= s);
    }
}

/// The order is unchanged by dropping an equal prefix.
proof fn lemma_bytes_le_skip(a: Seq<u8>, b: Seq<u8>, i: int)
    requires
        0 <= i <= a.len(),
        i <= b.len(),
        forall|j: int| 0 <= j < i ==> a[j] == b[j],
    ensures
        bytes_le(a, b) == bytes_le(a.skip(i), b.skip(i)),
    decreases i,
{
    if i > 0 {
        assert(a.len() > 0 && b.len() > 0 && a[0] == b[0]);
        assert(a.drop_first().skip(i - 1) =~= a.skip(i));
        assert(b.drop_first().skip(i - 1) =~= b.skip(i));
        assert forall|j: int| 0 <= j < i - 1 implies a.drop_first()[j] == b.drop_first()[j] by {
            assert(a[j + 1] == b[j + 1]);
        }
        lemma_bytes_le_skip(a.drop_first(), b.drop_first(), i - 1);
    } else {
        assert(a.skip(0) =~= a);
        assert(b.skip(0) =~= b);
    }
}

/// Transitivity of the lexicographic order.
proof fn lemma_bytes_le_trans(a: Seq<u8>, b: Seq<u8>, c: Seq<u8>)
    requires
        bytes_le(a, b),
        bytes_le(b, c),
    ensures
        bytes_le(a, c),
    decreases a.len(),
{
    if a.len() > 0 && b.len() > 0 && c.len() > 0 {
        if a[0] == b[0] && b[0] == c[0] {
            lemma_bytes_le_trans(a.drop_first(), b.drop_first(), c.drop_first());
        }
    }
}

/// The abstract value of a byte vector is its byte sequence.
proof fn lemma_bytes_deep_view(v: Vec<u8>)
    ensures
        v.deep_view() =~= v@,
{
}

impl GenericId for Vec<u8> {
    open spec fn width_v(a: Seq<u8>) -> nat {
        8 * a.len()
    }

    open spec fn xor_v(a: Seq<u8>, b: Seq<u8>) -> Seq<u8> {
        Seq::new(vstd::math::min(a.len() as int, b.len() as int) as nat, |i: int| a[i] ^ b[i])
    }

    open spec fn is_zero_v(a: Seq<u8>) -> bool {
        forall|i: int| 0 <= i < a.len() ==> a[i] == 0
    }

    open spec fn bits_v(a: Seq<u8>) -> nat {
        bytes_bit_len(a)
    }

    open spec fn le_v(a: Seq<u8>, b: Seq<u8>) -> bool {
        bytes_le(a, b)
    }

    open spec fn gen_ok(bit_size: usize) -> bool {
        bit_size <= usize::MAX - 8
    }

    open spec fn gen_width(bit_size: usize) -> nat {
        8 * (((bit_size as nat) + 7) / 8)
    }

    proof fn lemma_xor_comm(a: Seq<u8>, b: Seq<u8>) {
        assert forall|i: int|
            0 <= i < Self::xor_v(a, b).len() implies Self::xor_v(a, b)[i] == Self::xor_v(
            b,
            a,
        )[i] by {
            let x = a[i];
            let y = b[i];
            assert(x ^ y == y ^ x) by (bit_vector);
        }
        assert(Self::xor_v(a, b) =~= Self::xor_v(b, a));
    }

    proof fn lemma_xor_self(a: Seq<u8>) {
        assert forall|i: int| 0 <= i < Self::xor_v(a, a).len() implies Self::xor_v(a, a)[i]
            == 0 by {
            let x = a[i];
            assert(x ^ x == 0) by (bit_vector);
        }
    }

    proof fn lemma_xor_zero(a: Seq<u8>, b: Seq<u8>) {
        if Self::is_zero_v(Self::xor_v(a, b)) {
            assert forall|i: int| 0 <= i < a.len() implies a[i] == b[i] by {
                let x = a[i];
                let y = b[i];
                assert(Self::xor_v(a, b)[i] == 0);
                assert(x ^ y == 0 ==> x == y) by (bit_vector);
            }
            assert(a =~= b);
        }
        if a == b {
            Self::lemma_xor_self(a);
        }
    }

    proof fn lemma_xor_width(a: Seq<u8>, b: Seq<u8>) {
    }

    proof fn lemma_le_total(a: Seq<u8>, b: Seq<u8>) {
        lemma_bytes_le_total(a, b);
    }

    proof fn lemma_le_trans(a: Seq<u8>, b: Seq<u8>, c: Seq<u8>) {
        lemma_bytes_le_trans(a, b, c);
    }

    proof fn lemma_le_zero(a: Seq<u8>, b: Seq<u8>) {
        lemma_bytes_le_zero(a, b);
    }

    proof fn lemma_bits_range(a: Seq<u8>) {
        lemma_bytes_bit_len_zero(a);
        lemma_bytes_bit_len_width(a);
    }

    fn bitxor(&self, other: &Vec<u8>) -> (r: Vec<u8>) {
        let n: usize = if self.len() < other.len() {
            self.len()
        } else {
            other.len()
        };
        let mut r: Vec<u8> = Vec::new();
        let mut i: usize = 0;
        while i < n
            invariant
                i <= n,
                n == vstd::math::min(self@.len() as int, other@.len() as int),
                r@.len() == i,
                forall|j: int| 0 <= j < i ==> r@[j] == (self@[j] ^ other@[j]),
            decreases n - i,
        {
            let x = self[i];
            let y = other[i];
            r.push(x ^ y);
            i = i + 1;
        }
        proof {
            lemma_bytes_deep_view(r);
            lemma_bytes_deep_view(*self);
            lemma_bytes_deep_view(*other);
            assert(r.deep_view() =~= Self::xor_v(self.deep_view(), other.deep_view()));
        }
        r
    }

    fn is_zero(&self) -> (r: bool) {
        let mut i: usize = 0;
        proof {
            lemma_bytes_deep_view(*self);
        }
        while i < self.len()
            invariant
                i <= self@.len(),
                self.deep_view() == self@,
                forall|j: int| 0 <= j < i ==> self@[j] == 0,
            decreases self@.len() - i,
        {
            if self[i] != 0 {
                return false;
            }
            i = i + 1;
        }
        true
    }

    fn bits(&self) -> (r: usize) {
        proof {
            lemma_bytes_deep_view(*self);
        }
        let n = self.len();
        let mut i: usize = 0;
        while i < n
            invariant
                i <= n,
                n == self@.len(),
                8 * n <= usize::MAX,
                self.deep_view() == self@,
                forall|j: int| 0 <= j < i ==> self@[j] == 0,
            decreases n - i,
        {
            let b = self[i];
            if b != 0 {
                let mut v: u8 = b;
                let mut blen: usize = 0;
                proof {
                    lemma2_to64();
                    lemma_u64_bit_len_bound(b as u64, 8);
                }
                while v > 0
                    invariant
                        u64_bit_len(b as u64) == u64_bit_len(v as u64) + blen,
                        u64_bit_len(b as u64) <= 8,
                    decreases v,
                {
                    v = v / 2;
                    blen = blen + 1;
                }
                proof {
                    lemma_bytes_bit_len_skip(self@, i as int);
                    assert(self@.skip(i as int)[0] == self@[i as int]);
                    assert(self@.skip(i as int).len() == n - i);
                    assert(bytes_bit_len(self@.skip(i as int)) == 8 * (n - i - 1) + byte_bit_len(
                        self@[i as int],
                    ));
                }
                return (n - 1 - i) * 8 + blen;
            }
            i = i + 1;
        }
        proof {
            lemma_bytes_bit_len_skip(self@, n as int);
            assert(self@.skip(n as int).len() == 0);
        }
        0
    }

    fn le(&self, other: &Vec<u8>) -> (r: bool) {
        proof {
            lemma_bytes_deep_view(*self);
            lemma_bytes_deep_view(*other);
        }
        let mut i: usize = 0;
        while i < self.len() && i < other.len()
            invariant
                i <= self@.len(),
                i <= other@.len(),
                self.deep_view() == self@,
                other.deep_view() == other@,
                forall|j: int| 0 <= j < i ==> self@[j] == other@[j],
            decreases self@.len() - i,
        {
            let x = self[i];
            let y = other[i];
            if x < y {
                proof {
                    lemma_bytes_le_skip(self@, other@, i as int);
                }
                return true;
            }
            if x > y {
                proof {
                    lemma_bytes_le_skip(self@, other@, i as int);
                }
                return false;
            }
            i = i + 1;
        }
        proof {
            if self@.len() <= other@.len() {
                lemma_bytes_le_skip(self@, other@, self@.len() as int);
            } else {
                lemma_bytes_le_skip(self@, other@, other@.len() as int);
                assert(self@.skip(other@.len() as int).len() > 0);
                assert(other@.skip(other@.len() as int).len() == 0);
            }
        }
        self.len() <= other.len()
    }

    fn eq_id(&self, other: &Vec<u8>) -> (r: bool) {
        proof {
            lemma_bytes_deep_view(*self);
            lemma_bytes_deep_view(*other);
        }
        if self.len() != other.len() {
            return false;
        }
        let mut i: usize = 0;
        while i < self.len()
            invariant
                i <= self@.len(),
                self@.len() == other@.len(),
                self.deep_view() == self@,
                other.deep_view() == other@,
                forall|j: int| 0 <= j < i ==> self@[j] == other@[j],
            decreases self@.len() - i,
        {
            if self[i] != other[i] {
                return false;
            }
            i = i + 1;
        }
        proof {
            assert(self@ =~= other@);
        }
        true
    }

    fn duplicate(&self) -> (r: Vec<u8>) {
        let r = self.clone();
        proof {
            assert(r@ =~= self@);
            lemma_bytes_deep_view(r);
            lemma_bytes_deep_view(*self);
        }
        r
    }

    fn gen(bit_size: usize) -> (r: Vec<u8>)
        ensures
            r.deep_view().len() == ((bit_size as nat) + 7) / 8,
    {
        let nb_full_digits: usize = bit_size / 8;
        let nb_bits_partial_digit: usize = bit_size % 8;
        let mut res: Vec<u8> = Vec::new();
        if nb_bits_partial_digit > 0 {
            let bound: u64 = 1u64 << ((nb_bits_partial_digit - 1) as u64);
            proof {
                let p = (nb_bits_partial_digit - 1) as u64;
                assert(p < 7 ==> 1u64 << p >= 1 && 1u64 << p <= 64) by (bit_vector);
                assert((1u64 << p) as nat == pow2(p as nat)) by {
                    lemma2_to64();
                    vstd::arithmetic::power2::lemma_pow2_strictly_increases(p as nat, 7);
                    vstd::bits::lemma_u64_shl_is_mul(1u64, p);
                }
            }
            let first = random_u64_below(bound);
            res.push(first as u8);
        }
        let mut i: usize = 0;
        while i < nb_full_digits
            invariant
                i <= nb_full_digits,
                res@.len() == i + (if nb_bits_partial_digit > 0 {
                    1int
                } else {
                    0int
                }),
                nb_bits_partial_digit > 0 ==> (res@[0] as nat) < pow2(
                    (nb_bits_partial_digit - 1) as nat,
                ),
            decreases nb_full_digits - i,
        {
            res.push(random_u8());
            i = i + 1;
        }
        proof {
            lemma_bytes_deep_view(res);
            let s = res.deep_view();
            assert(s =~= res@);
            lemma_bytes_bit_len_width(s);
            if nb_bits_partial_digit > 0 {
                assert(s.len() == nb_full_digits + 1);
                if s[0] == 0 {
                    lemma_bytes_bit_len_width(s.drop_first());
                } else {
                    lemma_u64_bit_len_bound(s[0] as u64, (nb_bits_partial_digit - 1) as nat);
                }
            }
        }
        res
    }

    open spec fn text_v(a: Seq<u8>) -> Seq<char> {
        bytes_hex_text(a)
    }

    proof fn lemma_text_injective(a: Seq<u8>, b: Seq<u8>) {
        lemma_bytes_hex_shape(a);
        lemma_bytes_hex_shape(b);
    }

    fn encode(&self) -> (r: String) {
        proof {
            lemma_bytes_deep_view(*self);
        }
        let mut out = String::new();
        let mut i: usize = 0;
        while i < self.len()
            invariant
                i <= self@.len(),
                out@ == bytes_hex_text(self@.take(i as int)),
            decreases self@.len() - i,
        {
            let b = self[i];
            out.append(hex_str(b / 16));
            out.append(hex_str(b % 16));
            proof {
                assert(self@.take(i as int + 1).drop_last() =~= self@.take(i as int));
                assert(self@.take(i as int + 1).last() == self@[i as int]);
                assert(out@ =~= bytes_hex_text(self@.take(i as int)) + byte_hex(
                    self@[i as int],
                ));
            }
            i = i + 1;
        }
        proof {
            assert(self@.take(self@.len() as int) =~= self@);
            lemma_bytes_deep_view(*self);
        }
        out
    }

    fn decode(s: &str) -> (r: Option<Vec<u8>>) {
        let n = s.unicode_len();
        if n % 2 != 0 {
            proof {
                assert forall|a: Seq<u8>| s@ != bytes_hex_text(a) by {
                    lemma_bytes_hex_shape(a);
                }
            }
            return None;
        }
        let mut res: Vec<u8> = Vec::new();
        let mut i: usize = 0;
        proof {
            assert(s@.take(0) =~= Seq::empty());
            assert(res@ =~= bytes_of_hex(s@.take(0)));
        }
        while i < n
            invariant
                i <= n,
                i % 2 == 0,
                n % 2 == 0,
                n == s@.len(),
                forall|j: int| 0 <= j < i ==> is_hex(#[trigger] s@[j]),
                res@ == bytes_of_hex(s@.take(i as int)),
            decreases n - i,
        {
            let c1 = s.get_char(i);
            let c2 = s.get_char(i + 1);
            let d1 = hex_digit_val(c1);
            let d2 = hex_digit_val(c2);
            if d1 >= 16 || d2 >= 16 {
                proof {
                    assert forall|a: Seq<u8>| s@ != bytes_hex_text(a) by {
                        lemma_bytes_hex_shape(a);
                        if s@ == bytes_hex_text(a) {
                            assert(is_hex(s@[i as int]) && is_hex(s@[i as int + 1]));
                        }
                    }
                }
                return None;
            }
            res.push(d1 * 16 + d2);
            proof {
                let t = s@.take(i as int + 2);
                assert(t.take(t.len() - 2) =~= s@.take(i as int));
                assert(t[t.len() - 2] == s@[i as int] && t[t.len() - 1] == s@[i as int + 1]);
                assert(res@ =~= bytes_of_hex(s@.take(i as int + 2)));
            }
            i = i + 2;
        }
        proof {
            assert(s@.take(n as int) =~= s@);
            lemma_bytes_hex_of_value(s@);
            lemma_bytes_deep_view(res);
        }
        Some(res)
    }
}

/// Totality of the lexicographic order.
proof fn lemma_bytes_le_total(a: Seq<u8>, b: Seq<u8>)
        ensures
            bytes_le(a, b) || bytes_le(b, a),
        decreases a.len(),
    {
    if a.len() > 0 && b.len() > 0 && a[0] == b[0] {
        lemma_bytes_le_total(a.drop_first(), b.drop_first());
    }
}

/// Only an all-zero string sorts below an all-zero string of its
/// length.
proof fn lemma_bytes_le_zero(a: Seq<u8>, b: Seq<u8>)
        requires
            bytes_le(a, b),
            forall|i: int| 0 <= i < b.len() ==> b[i] == 0,
            a.len() == b.len(),
        ensures
            forall|i: int| 0 <= i < a.len() ==> a[i] == 0,
        decreases a.len(),
    {
        if a.len() > 0 {
            assert(b[0] == 0);
            assert(a[0] == 0);
            assert forall|i: int| 0 <= i < b.drop_first().len() implies b.drop_first()[i]
                == 0 by {
                assert(b[i + 1] == 0);
            }
            lemma_bytes_le_zero(a.drop_first(), b.drop_first());
            assert forall|i: int| 0 <= i < a.len() implies a[i] == 0 by {
                if i > 0 {
                    assert(a.drop_first()[i - 1] == 0);
                }
            }
        }
    }

} // verus!
