//! Digit-level building blocks of the canonical text forms: lowercase
//! hexadecimal for identifiers, decimal for address octets and ports.

use vstd::prelude::*;

verus! {

/// The lowercase hexadecimal digit for a value below sixteen.
pub open spec fn hex_char(n: nat) -> char {
    if n == 0 {
        '0'
    } else if n == 1 {
        '1'
    } else if n == 2 {
        '2'
    } else if n == 3 {
        '3'
    } else if n == 4 {
        '4'
    } else if n == 5 {
        '5'
    } else if n == 6 {
        '6'
    } else if n == 7 {
        '7'
    } else if n == 8 {
        '8'
    } else if n == 9 {
        '9'
    } else if n == 10 {
        'a'
    } else if n == 11 {
        'b'
    } else if n == 12 {
        'c'
    } else if n == 13 {
        'd'
    } else if n == 14 {
        'e'
    } else {
        'f'
    }
}

/// The value of a lowercase hexadecimal digit; sixteen for any other
/// character.
pub open spec fn hex_val(c: char) -> nat {
    if c == '0' {
        0
    } else if c == '1' {
        1
    } else if c == '2' {
        2
    } else if c == '3' {
        3
    } else if c == '4' {
        4
    } else if c == '5' {
        5
    } else if c == '6' {
        6
    } else if c == '7' {
        7
    } else if c == '8' {
        8
    } else if c == '9' {
        9
    } else if c == 'a' {
        10
    } else if c == 'b' {
        11
    } else if c == 'c' {
        12
    } else if c == 'd' {
        13
    } else if c == 'e' {
        14
    } else if c == 'f' {
        15
    } else {
        16
    }
}

/// Whether a character is a lowercase hexadecimal digit.
pub open spec fn is_hex(c: char) -> bool {
    hex_val(c) < 16
}

/// Whether a character is a decimal digit.
pub open spec fn is_dec(c: char) -> bool {
    hex_val(c) < 10
}

/// Powers of sixteen.
pub open spec fn pow16(k: nat) -> nat
    decreases k,
{
    if k == 0 {
        1
    } else {
        16 * pow16((k - 1) as nat)
    }
}

/// Powers of ten.
pub open spec fn pow10(k: nat) -> nat
    decreases k,
{
    if k == 0 {
        1
    } else {
        10 * pow10((k - 1) as nat)
    }
}

/// Powers of sixteen do not decrease.
pub proof fn lemma_pow16_le(j: nat, k: nat)
    requires
        j <= k,
    ensures
        pow16(j) <= pow16(k),
    decreases k,
{
    if j < k {
        lemma_pow16_le(j, (k - 1) as nat);
        assert(pow16((k - 1) as nat) >= 1) by {
            lemma_pow16_le(0, (k - 1) as nat);
        }
    }
}

/// Powers of ten do not decrease.
pub proof fn lemma_pow10_le(j: nat, k: nat)
    requires
        j <= k,
    ensures
        pow10(j) <= pow10(k),
    decreases k,
{
    if j < k {
        lemma_pow10_le(j, (k - 1) as nat);
        assert(pow10((k - 1) as nat) >= 1) by {
            lemma_pow10_le(0, (k - 1) as nat);
        }
    }
}

/// Canonical lowercase hexadecimal text of a 64-bit value: no leading
/// zeros, "0" for zero.
pub open spec fn hex_text(a: u64) -> Seq<char>
    decreases a,
{
    if a < 16 {
        seq![hex_char(a as nat)]
    } else {
        hex_text(a / 16).push(hex_char((a % 16) as nat))
    }
}

/// The number a hexadecimal digit string denotes.
pub open spec fn hex_value_of(s: Seq<char>) -> nat
    decreases s.len(),
{
    if s.len() == 0 {
        0
    } else {
        hex_value_of(s.drop_last()) * 16 + hex_val(s.last())
    }
}

/// Shape of the canonical hexadecimal text: non-empty, hexadecimal
/// digits only, no leading zero (except for "0"), and it denotes the
/// encoded value.
pub proof fn lemma_hex_text_shape(a: u64)
    ensures
        hex_text(a).len() >= 1,
        forall|i: int| 0 <= i < hex_text(a).len() ==> is_hex(#[trigger] hex_text(a)[i]),
        hex_text(a).len() > 1 ==> hex_text(a)[0] != '0',
        hex_text(a)[0] == '0' ==> a == 0,
        hex_value_of(hex_text(a)) == a,
    decreases a,
{
    if a < 16 {
        assert(hex_text(a).drop_last() =~= Seq::empty());
        assert(hex_text(a).last() == hex_char(a as nat));
        assert(hex_val(hex_char(a as nat)) == a as nat);
        assert(hex_value_of(hex_text(a)) == hex_value_of(Seq::<char>::empty()) * 16 + hex_val(
            hex_char(a as nat),
        ));
    } else {
        lemma_hex_text_shape(a / 16);
        let t = hex_text(a);
        assert(t.drop_last() =~= hex_text(a / 16));
        assert forall|i: int| 0 <= i < t.len() implies is_hex(#[trigger] t[i]) by {
            if i < t.len() - 1 {
                assert(t[i] == hex_text(a / 16)[i]);
            } else {
                assert(t[i] == hex_char((a % 16) as nat));
            }
        }
        assert(t[0] == hex_text(a / 16)[0]);
        assert(t.last() == hex_char((a % 16) as nat));
        assert(hex_val(hex_char((a % 16) as nat)) == (a % 16) as nat);
        assert(hex_value_of(t) == hex_value_of(hex_text(a / 16)) * 16 + (a % 16));
        assert((a / 16) * 16 + (a % 16) == a);
    }
}

/// The canonical hexadecimal text of a 64-bit value has at most sixteen
/// digits.
pub proof fn lemma_hex_text_len(a: u64)
    ensures
        hex_text(a).len() <= 16,
{
    assert(pow16(16) == 0x10000000000000000) by {
        reveal_with_fuel(pow16, 17);
    }
    lemma_hex_text_len_rec(a, 16);
}

proof fn lemma_hex_text_len_rec(a: u64, k: nat)
    requires
        k >= 1,
        (a as nat) < pow16(k),
    ensures
        hex_text(a).len() <= k,
    decreases k,
{
    if a >= 16 {
        assert(((a / 16) as nat) < pow16((k - 1) as nat));
        lemma_hex_text_len_rec(a / 16, (k - 1) as nat);
    }
}

/// A hexadecimal digit string denotes a value below sixteen to the power
/// of its length.
pub proof fn lemma_hex_value_bound(s: Seq<char>)
    requires
        forall|i: int| 0 <= i < s.len() ==> is_hex(#[trigger] s[i]),
    ensures
        hex_value_of(s) < pow16(s.len()),
    decreases s.len(),
{
    if s.len() > 0 {
        assert forall|i: int| 0 <= i < s.drop_last().len() implies is_hex(
            #[trigger] s.drop_last()[i],
        ) by {
            assert(s.drop_last()[i] == s[i]);
        }
        lemma_hex_value_bound(s.drop_last());
        assert(is_hex(s.last()));
    }
}

/// A canonical-shaped digit string with a non-zero leading digit denotes
/// a non-zero value.
proof fn lemma_hex_value_pos(s: Seq<char>)
    requires
        s.len() >= 1,
        s[0] != '0',
        forall|i: int| 0 <= i < s.len() ==> is_hex(#[trigger] s[i]),
    ensures
        hex_value_of(s) >= 1,
    decreases s.len(),
{
    if s.len() == 1 {
        assert(hex_value_of(s.drop_last()) == 0);
    } else {
        assert(s.drop_last()[0] == s[0]);
        lemma_hex_value_pos(s.drop_last());
    }
}

/// Encoding the value a canonical-shaped digit string denotes gives the
/// string back: hexadecimal decoding is inverse to encoding.
pub proof fn lemma_hex_text_of_value(s: Seq<char>)
    requires
        s.len() >= 1,
        forall|i: int| 0 <= i < s.len() ==> is_hex(#[trigger] s[i]),
        s.len() > 1 ==> s[0] != '0',
        hex_value_of(s) <= u64::MAX,
    ensures
        hex_text(hex_value_of(s) as u64) == s,
    decreases s.len(),
{
    let v = hex_value_of(s) as u64;
    if s.len() == 1 {
        assert(hex_value_of(s.drop_last()) == 0);
        assert(hex_char(hex_val(s[0])) == s[0]);
        assert(hex_text(v) =~= s);
    } else {
        let p = s.drop_last();
        assert(p[0] == s[0]);
        lemma_hex_value_pos(p);
        lemma_hex_value_bound(p);
        assert(hex_value_of(p) * 16 <= (hex_value_of(s) - hex_val(s.last())));
        assert(hex_value_of(p) <= u64::MAX) by {
            assert(hex_value_of(p) * 16 >= hex_value_of(p));
        }
        lemma_hex_text_of_value(p);
        assert(v >= 16);
        assert((v / 16) as nat == hex_value_of(p) && (v % 16) as nat == hex_val(s.last()));
        assert(hex_char(hex_val(s.last())) == s.last());
        assert(hex_text(v) =~= hex_text(v / 16).push(hex_char((v % 16) as nat)));
        assert(hex_text(v) =~= s);
    }
}

/// Two hexadecimal digits, most significant first, for one byte.
pub open spec fn byte_hex(b: u8) -> Seq<char> {
    seq![hex_char((b / 16) as nat), hex_char((b % 16) as nat)]
}

/// The canonical hexadecimal text of a byte string: two digits per byte.
pub open spec fn bytes_hex_text(s: Seq<u8>) -> Seq<char>
    decreases s.len(),
{
    if s.len() == 0 {
        Seq::empty()
    } else {
        bytes_hex_text(s.drop_last()) + byte_hex(s.last())
    }
}

/// The byte string a hexadecimal digit string of even length denotes.
pub open spec fn bytes_of_hex(t: Seq<char>) -> Seq<u8>
    decreases t.len(),
{
    if t.len() < 2 {
        Seq::empty()
    } else {
        bytes_of_hex(t.take(t.len() - 2)).push(
            (hex_val(t[t.len() - 2]) * 16 + hex_val(t[t.len() - 1])) as u8,
        )
    }
}

/// Shape of a byte string's text: two hexadecimal digits per byte, and
/// decoding gives the bytes back.
pub proof fn lemma_bytes_hex_shape(s: Seq<u8>)
    ensures
        bytes_hex_text(s).len() == 2 * s.len(),
        forall|i: int| 0 <= i < 2 * s.len() ==> is_hex(#[trigger] bytes_hex_text(s)[i]),
        bytes_of_hex(bytes_hex_text(s)) == s,
    decreases s.len(),
{
    if s.len() > 0 {
        lemma_bytes_hex_shape(s.drop_last());
        let t = bytes_hex_text(s);
        assert forall|i: int| 0 <= i < 2 * s.len() implies is_hex(#[trigger] t[i]) by {
            if i < 2 * s.len() - 2 {
                assert(t[i] == bytes_hex_text(s.drop_last())[i]);
            } else {
                assert(t[i] == byte_hex(s.last())[i - (2 * s.len() - 2)]);
            }
        }
        assert(t.take(t.len() - 2) =~= bytes_hex_text(s.drop_last()));
        assert(t[t.len() - 2] == hex_char((s.last() / 16) as nat));
        assert(t[t.len() - 1] == hex_char((s.last() % 16) as nat));
        assert(bytes_of_hex(t) =~= s);
    }
}

/// Encoding the bytes a hexadecimal digit string of even length denotes
/// gives the string back.
pub proof fn lemma_bytes_hex_of_value(t: Seq<char>)
    requires
        t.len() % 2 == 0,
        forall|i: int| 0 <= i < t.len() ==> is_hex(#[trigger] t[i]),
    ensures
        bytes_hex_text(bytes_of_hex(t)) == t,
    decreases t.len(),
{
    if t.len() >= 2 {
        let p = t.take(t.len() - 2);
        assert forall|i: int| 0 <= i < p.len() implies is_hex(#[trigger] p[i]) by {
            assert(p[i] == t[i]);
        }
        lemma_bytes_hex_of_value(p);
        let b = bytes_of_hex(t);
        assert(b.drop_last() =~= bytes_of_hex(p));
        assert(hex_val(t[t.len() - 2]) < 16 && hex_val(t[t.len() - 1]) < 16);
        assert(b.last() as nat == hex_val(t[t.len() - 2]) * 16 + hex_val(t[t.len() - 1]));
        assert(hex_char((b.last() / 16) as nat) == t[t.len() - 2]);
        assert(hex_char((b.last() % 16) as nat) == t[t.len() - 1]);
        assert(bytes_hex_text(b) =~= t);
    } else {
        assert(t =~= Seq::<char>::empty());
    }
}

/// Canonical decimal text of a 32-bit value: no leading zeros.
pub open spec fn dec_text(a: u32) -> Seq<char>
    decreases a,
{
    if a < 10 {
        seq![hex_char(a as nat)]
    } else {
        dec_text(a / 10).push(hex_char((a % 10) as nat))
    }
}

/// The number a decimal digit string denotes.
pub open spec fn dec_value_of(s: Seq<char>) -> nat
    decreases s.len(),
{
    if s.len() == 0 {
        0
    } else {
        dec_value_of(s.drop_last()) * 10 + hex_val(s.last())
    }
}

/// Shape of the canonical decimal text: non-empty, decimal digits only,
/// no leading zero (except for "0"), and it denotes the encoded value.
pub proof fn lemma_dec_text_shape(a: u32)
    ensures
        dec_text(a).len() >= 1,
        forall|i: int| 0 <= i < dec_text(a).len() ==> is_dec(#[trigger] dec_text(a)[i]),
        dec_text(a).len() > 1 ==> dec_text(a)[0] != '0',
        dec_text(a)[0] == '0' ==> a == 0,
        dec_value_of(dec_text(a)) == a,
    decreases a,
{
    if a < 10 {
        assert(dec_text(a).drop_last() =~= Seq::empty());
        assert(dec_text(a).last() == hex_char(a as nat));
        assert(hex_val(hex_char(a as nat)) == a as nat);
        assert(dec_value_of(dec_text(a)) == dec_value_of(Seq::<char>::empty()) * 10 + hex_val(
            hex_char(a as nat),
        ));
    } else {
        lemma_dec_text_shape(a / 10);
        let t = dec_text(a);
        assert(t.drop_last() =~= dec_text(a / 10));
        assert forall|i: int| 0 <= i < t.len() implies is_dec(#[trigger] t[i]) by {
            if i < t.len() - 1 {
                assert(t[i] == dec_text(a / 10)[i]);
            } else {
                assert(t[i] == hex_char((a % 10) as nat));
            }
        }
        assert(t[0] == dec_text(a / 10)[0]);
        assert(t.last() == hex_char((a % 10) as nat));
        assert(hex_val(hex_char((a % 10) as nat)) == (a % 10) as nat);
        assert(dec_value_of(t) == dec_value_of(dec_text(a / 10)) * 10 + (a % 10));
        assert((a / 10) * 10 + (a % 10) == a);
    }
}

/// The canonical decimal text of a 32-bit value has at most ten digits.
pub proof fn lemma_dec_text_len(a: u32)
    ensures
        dec_text(a).len() <= 10,
{
    assert(pow10(10) == 10000000000) by {
        reveal_with_fuel(pow10, 11);
    }
    lemma_dec_text_len_rec(a, 10);
}

proof fn lemma_dec_text_len_rec(a: u32, k: nat)
    requires
        k >= 1,
        (a as nat) < pow10(k),
    ensures
        dec_text(a).len() <= k,
    decreases k,
{
    if a >= 10 {
        assert(((a / 10) as nat) < pow10((k - 1) as nat));
        lemma_dec_text_len_rec(a / 10, (k - 1) as nat);
    }
}

proof fn lemma_dec_value_pos(s: Seq<char>)
    requires
        s.len() >= 1,
        s[0] != '0',
        forall|i: int| 0 <= i < s.len() ==> is_dec(#[trigger] s[i]),
    ensures
        dec_value_of(s) >= 1,
    decreases s.len(),
{
    if s.len() == 1 {
        assert(dec_value_of(s.drop_last()) == 0);
    } else {
        assert(s.drop_last()[0] == s[0]);
        assert forall|i: int| 0 <= i < s.drop_last().len() implies is_dec(
            #[trigger] s.drop_last()[i],
        ) by {
            assert(s.drop_last()[i] == s[i]);
        }
        lemma_dec_value_pos(s.drop_last());
    }
}

/// Encoding the value a canonical-shaped decimal string denotes gives
/// the string back: decimal decoding is inverse to encoding.
pub proof fn lemma_dec_text_of_value(s: Seq<char>)
    requires
        s.len() >= 1,
        forall|i: int| 0 <= i < s.len() ==> is_dec(#[trigger] s[i]),
        s.len() > 1 ==> s[0] != '0',
        dec_value_of(s) <= u32::MAX,
    ensures
        dec_text(dec_value_of(s) as u32) == s,
    decreases s.len(),
{
    let v = dec_value_of(s) as u32;
    if s.len() == 1 {
        assert(dec_value_of(s.drop_last()) == 0);
        assert(hex_char(hex_val(s[0])) == s[0]);
        assert(dec_text(v) =~= s);
    } else {
        let p = s.drop_last();
        assert(p[0] == s[0]);
        assert forall|i: int| 0 <= i < p.len() implies is_dec(#[trigger] p[i]) by {
            assert(p[i] == s[i]);
        }
        lemma_dec_value_pos(p);
        assert(dec_value_of(p) <= u32::MAX) by {
            assert(dec_value_of(p) * 10 >= dec_value_of(p));
        }
        lemma_dec_text_of_value(p);
        assert(v >= 10);
        assert((v / 10) as nat == dec_value_of(p) && (v % 10) as nat == hex_val(s.last()));
        assert(hex_char(hex_val(s.last())) == s.last());
        assert(dec_text(v) =~= dec_text(v / 10).push(hex_char((v % 10) as nat)));
        assert(dec_text(v) =~= s);
    }
}

/// A one-character string slice for a value below sixteen, as a
/// lowercase hexadecimal digit.
pub fn hex_str(n: u8) -> (r: &'static str)
    requires
        n < 16,
    ensures
        r@ == seq![hex_char(n as nat)],
{
    proof {
        reveal_strlit("0");
        reveal_strlit("1");
        reveal_strlit("2");
        reveal_strlit("3");
        reveal_strlit("4");
        reveal_strlit("5");
        reveal_strlit("6");
        reveal_strlit("7");
        reveal_strlit("8");
        reveal_strlit("9");
        reveal_strlit("a");
        reveal_strlit("b");
        reveal_strlit("c");
        reveal_strlit("d");
        reveal_strlit("e");
        reveal_strlit("f");
    }
    let r = match n {
        0 => "0",
        1 => "1",
        2 => "2",
        3 => "3",
        4 => "4",
        5 => "5",
        6 => "6",
        7 => "7",
        8 => "8",
        9 => "9",
        10 => "a",
        11 => "b",
        12 => "c",
        13 => "d",
        14 => "e",
        _ => "f",
    };
    proof {
        assert(r@ =~= seq![hex_char(n as nat)]);
    }
    r
}

/// The value of a character as a lowercase hexadecimal digit; sixteen
/// for any other character.
pub fn hex_digit_val(c: char) -> (r: u8)
    ensures
        r as nat == hex_val(c),
{
    match c {
        '0' => 0,
        '1' => 1,
        '2' => 2,
        '3' => 3,
        '4' => 4,
        '5' => 5,
        '6' => 6,
        '7' => 7,
        '8' => 8,
        '9' => 9,
        'a' => 10,
        'b' => 11,
        'c' => 12,
        'd' => 13,
        'e' => 14,
        'f' => 15,
        _ => 16,
    }
}

/// Append the canonical hexadecimal text of a 64-bit value to a string.
pub fn append_hex_u64(out: &mut String, a: u64)
    ensures
        final(out)@ == old(out)@ + hex_text(a),
    decreases a,
{
    if a < 16 {
        out.append(hex_str(a as u8));
        proof {
            assert(old(out)@ + hex_text(a) =~= old(out)@ + seq![hex_char(a as nat)]);
        }
    } else {
        append_hex_u64(out, a / 16);
        out.append(hex_str((a % 16) as u8));
        proof {
            assert(old(out)@ + hex_text(a) =~= (old(out)@ + hex_text(a / 16)) + seq![
                hex_char((a % 16) as nat),
            ]);
        }
    }
}

/// Append the canonical decimal text of a 32-bit value to a string.
pub fn append_dec_u32(out: &mut String, a: u32)
    ensures
        final(out)@ == old(out)@ + dec_text(a),
    decreases a,
{
    if a < 10 {
        out.append(hex_str(a as u8));
        proof {
            assert(old(out)@ + dec_text(a) =~= old(out)@ + seq![hex_char(a as nat)]);
        }
    } else {
        append_dec_u32(out, a / 10);
        out.append(hex_str((a % 10) as u8));
        proof {
            assert(old(out)@ + dec_text(a) =~= (old(out)@ + dec_text(a / 10)) + seq![
                hex_char((a % 10) as nat),
            ]);
        }
    }
}

} // verus!
