//! Network addresses: an IPv4 endpoint with its canonical
//! `a.b.c.d:port` text form.

use vstd::prelude::*;

use crate::base::GenericAddr;
use crate::digits::{
    append_dec_u32, dec_text, dec_value_of, hex_digit_val, is_dec, lemma_dec_text_len,
    lemma_dec_text_of_value, lemma_dec_text_shape, pow10,
};

verus! {

/// An IPv4 network endpoint: four address octets and a port.
#[derive(Clone, Copy, Debug, PartialEq, Eq, Structural)]
pub struct Address {
    /// First (most significant) address octet.
    pub a: u8,
    /// Second address octet.
    pub b: u8,
    /// Third address octet.
    pub c: u8,
    /// Fourth address octet.
    pub d: u8,
    /// Port number.
    pub port: u16,
}

impl View for Address {
    type V = Address;

    open spec fn view(&self) -> Address {
        *self
    }
}

impl DeepView for Address {
    type V = Address;

    open spec fn deep_view(&self) -> Address {
        *self
    }
}

impl GenericAddr for Address {
    fn duplicate(&self) -> (r: Address) {
        *self
    }
}

impl Address {
    /// Construct an address from its octets and port.
    pub fn new(a: u8, b: u8, c: u8, d: u8, port: u16) -> (r: Address)
        ensures
            r == (Address { a, b, c, d, port }),
    {
        Address { a, b, c, d, port }
    }
}

/// Canonical text of an address: the four octets in decimal separated by
/// dots, a colon, and the port in decimal.
pub open spec fn addr_text(ad: Address) -> Seq<char> {
    dec_text(ad.a as u32) + seq!['.'] + dec_text(ad.b as u32) + seq!['.'] + dec_text(
        ad.c as u32,
    ) + seq!['.'] + dec_text(ad.d as u32) + seq![':'] + dec_text(ad.port as u32)
}

/// Every character of an address text is a digit, a dot, or a colon.
pub proof fn lemma_addr_text_plain(ad: Address)
    ensures
        forall|i: int|
            0 <= i < addr_text(ad).len() ==> is_dec(#[trigger] addr_text(ad)[i]) || addr_text(
                ad,
            )[i] == '.' || addr_text(ad)[i] == ':',
{
    lemma_dec_text_shape(ad.a as u32);
    lemma_dec_text_shape(ad.b as u32);
    lemma_dec_text_shape(ad.c as u32);
    lemma_dec_text_shape(ad.d as u32);
    lemma_dec_text_shape(ad.port as u32);
    let t1 = dec_text(ad.a as u32);
    let t2 = dec_text(ad.b as u32);
    let t3 = dec_text(ad.c as u32);
    let t4 = dec_text(ad.d as u32);
    let t5 = dec_text(ad.port as u32);
    let t = addr_text(ad);
    assert forall|i: int|
        0 <= i < t.len() implies is_dec(#[trigger] t[i]) || t[i] == '.' || t[i] == ':' by {
        let l1 = t1.len() as int;
        let l2 = t2.len() as int;
        let l3 = t3.len() as int;
        let l4 = t4.len() as int;
        if i < l1 {
            assert(t[i] == t1[i]);
        } else if i == l1 {
        } else if i < l1 + 1 + l2 {
            assert(t[i] == t2[i - l1 - 1]);
        } else if i == l1 + 1 + l2 {
        } else if i < l1 + 1 + l2 + 1 + l3 {
            assert(t[i] == t3[i - l1 - 1 - l2 - 1]);
        } else if i == l1 + 1 + l2 + 1 + l3 {
        } else if i < l1 + 1 + l2 + 1 + l3 + 1 + l4 {
            assert(t[i] == t4[i - l1 - 1 - l2 - 1 - l3 - 1]);
        } else if i == l1 + 1 + l2 + 1 + l3 + 1 + l4 {
        } else {
            assert(t[i] == t5[i - l1 - 1 - l2 - 1 - l3 - 1 - l4 - 1]);
        }
    }
}

/// The end of the run of decimal digits that starts at `i`.
pub open spec fn dec_run_end(t: Seq<char>, i: int) -> int
    recommends
        0 <= i <= t.len(),
    decreases t.len() - i
        when 0 <= i <= t.len()
{
    if i >= t.len() || !is_dec(t[i]) {
        i
    } else {
        dec_run_end(t, i + 1)
    }
}

/// A run of digits followed by a non-digit (or the end) is exactly the
/// digit run.
pub proof fn lemma_dec_run_of(t: Seq<char>, i: int, e: int)
    requires
        0 <= i <= e <= t.len(),
        forall|j: int| i <= j < e ==> is_dec(#[trigger] t[j]),
        e < t.len() ==> !is_dec(t[e]),
    ensures
        dec_run_end(t, i) == e,
    decreases e - i,
{
    if i < e {
        lemma_dec_run_of(t, i + 1, e);
    }
}

/// Scan the decimal run starting at `from` and read its value, if the
/// run is the canonical decimal text of a 32-bit value.
fn scan_dec(s: &str, from: usize) -> (r: Option<(usize, u32)>)
    requires
        from <= s@.len(),
    ensures
        r matches Some(ev) ==> from < ev.0 <= s@.len() && ev.0 as int == dec_run_end(
            s@,
            from as int,
        ) && s@.subrange(from as int, ev.0 as int) == dec_text(ev.1),
        r is None ==> forall|v: u32|
            s@.subrange(from as int, dec_run_end(s@, from as int)) != dec_text(v),
{
    let ghost t = s@;
    let n = s.unicode_len();
    let mut j: usize = from;
    while j < n
        invariant_except_break
            from <= j <= n,
            n == t.len(),
            t == s@,
            dec_run_end(t, from as int) == dec_run_end(t, j as int),
            forall|k: int| from <= k < j ==> is_dec(#[trigger] t[k]),
        ensures
            from <= j <= n,
            n == t.len(),
            t == s@,
            j as int == dec_run_end(t, from as int),
            forall|k: int| from <= k < j ==> is_dec(#[trigger] t[k]),
        decreases n - j,
    {
        let c = s.get_char(j);
        let d = hex_digit_val(c);
        if d >= 10 {
            proof {
                assert(dec_run_end(t, j as int) == j as int);
            }
            break ;
        }
        j = j + 1;
    }
    let ghost run = t.subrange(from as int, j as int);
    let len = j - from;
    if len == 0 {
        proof {
            assert forall|v: u32| run != dec_text(v) by {
                lemma_dec_text_shape(v);
            }
        }
        return None;
    }
    if len > 10 {
        proof {
            assert forall|v: u32| run != dec_text(v) by {
                lemma_dec_text_len(v);
            }
        }
        return None;
    }
    let first = s.get_char(from);
    let dfirst = hex_digit_val(first);
    if len > 1 && dfirst == 0 {
        proof {
            assert(first == '0');
            assert forall|v: u32| run != dec_text(v) by {
                lemma_dec_text_shape(v);
                if run == dec_text(v) {
                    assert(dec_text(v)[0] == t[from as int]);
                }
            }
        }
        return None;
    }
    let mut acc: u64 = 0;
    let mut k: usize = from;
    while k < j
        invariant
            from <= k <= j <= n,
            n == t.len(),
            t == s@,
            j - from <= 10,
            forall|q: int| from <= q < j ==> is_dec(#[trigger] t[q]),
            acc as nat == dec_value_of(t.subrange(from as int, k as int)),
            (acc as nat) < pow10((k - from) as nat),
        decreases j - k,
    {
        let c = s.get_char(k);
        let d = hex_digit_val(c);
        proof {
            assert(t.subrange(from as int, k as int + 1).drop_last() =~= t.subrange(
                from as int,
                k as int,
            ));
            assert(t.subrange(from as int, k as int + 1).last() == t[k as int]);
            assert(pow10(9) == 1000000000 && pow10(10) == 10000000000) by {
                reveal_with_fuel(pow10, 11);
            }
            crate::digits::lemma_pow10_le((k - from) as nat, 9);
        }
        acc = acc * 10 + (d as u64);
        k = k + 1;
    }
    if acc > 0xffffffff {
        proof {
            assert forall|v: u32| run != dec_text(v) by {
                lemma_dec_text_shape(v);
                if run == dec_text(v) {
                    assert(dec_value_of(run) == v);
                }
            }
        }
        return None;
    }
    proof {
        assert(run.len() >= 1);
        assert(run[0] == t[from as int]);
        assert forall|q: int| 0 <= q < run.len() implies is_dec(#[trigger] run[q]) by {
            assert(run[q] == t[from as int + q]);
        }
        assert(run.len() > 1 ==> run[0] != '0');
        lemma_dec_text_of_value(run);
    }
    Some((j, acc as u32))
}

/// Append the canonical text of an address to a string.
pub fn append_address(out: &mut String, ad: &Address)
    ensures
        final(out)@ == old(out)@ + addr_text(*ad),
{
    proof {
        reveal_strlit(".");
        reveal_strlit(":");
    }
    append_dec_u32(out, ad.a as u32);
    out.append(".");
    append_dec_u32(out, ad.b as u32);
    out.append(".");
    append_dec_u32(out, ad.c as u32);
    out.append(".");
    append_dec_u32(out, ad.d as u32);
    out.append(":");
    append_dec_u32(out, ad.port as u32);
    proof {
        assert("."@ =~= seq!['.']);
        assert(":"@ =~= seq![':']);
        assert(out@ =~= old(out)@ + addr_text(*ad));
    }
}

/// The canonical text encoding of an address.
pub fn encode_address(ad: &Address) -> (r: String)
    ensures
        r@ == addr_text(*ad),
{
    let mut out = String::new();
    append_address(&mut out, ad);
    proof {
        assert(out@ =~= addr_text(*ad));
    }
    out
}

/// How the canonical text of an address decomposes: the positions of
/// the separators and the digit runs between them.
proof fn lemma_addr_decomp(t: Seq<char>, ad: Address)
    requires
        t == addr_text(ad),
    ensures
        ({
            let l1 = dec_text(ad.a as u32).len() as int;
            let l2 = dec_text(ad.b as u32).len() as int;
            let l3 = dec_text(ad.c as u32).len() as int;
            let l4 = dec_text(ad.d as u32).len() as int;
            let l5 = dec_text(ad.port as u32).len() as int;
            &&& t.len() == l1 + 1 + l2 + 1 + l3 + 1 + l4 + 1 + l5
            &&& dec_run_end(t, 0) == l1
            &&& t.subrange(0, l1) == dec_text(ad.a as u32)
            &&& t[l1] == '.'
            &&& dec_run_end(t, l1 + 1) == l1 + 1 + l2
            &&& t.subrange(l1 + 1, l1 + 1 + l2) == dec_text(ad.b as u32)
            &&& t[l1 + 1 + l2] == '.'
            &&& dec_run_end(t, l1 + 1 + l2 + 1) == l1 + 1 + l2 + 1 + l3
            &&& t.subrange(l1 + 1 + l2 + 1, l1 + 1 + l2 + 1 + l3) == dec_text(ad.c as u32)
            &&& t[l1 + 1 + l2 + 1 + l3] == '.'
            &&& dec_run_end(t, l1 + 1 + l2 + 1 + l3 + 1) == l1 + 1 + l2 + 1 + l3 + 1 + l4
            &&& t.subrange(l1 + 1 + l2 + 1 + l3 + 1, l1 + 1 + l2 + 1 + l3 + 1 + l4) == dec_text(
                ad.d as u32,
            )
            &&& t[l1 + 1 + l2 + 1 + l3 + 1 + l4] == ':'
            &&& dec_run_end(t, l1 + 1 + l2 + 1 + l3 + 1 + l4 + 1) == t.len()
            &&& t.subrange(l1 + 1 + l2 + 1 + l3 + 1 + l4 + 1, t.len() as int) == dec_text(
                ad.port as u32,
            )
        }),
{
    lemma_dec_text_shape(ad.a as u32);
    lemma_dec_text_shape(ad.b as u32);
    lemma_dec_text_shape(ad.c as u32);
    lemma_dec_text_shape(ad.d as u32);
    lemma_dec_text_shape(ad.port as u32);
    let t1 = dec_text(ad.a as u32);
    let t2 = dec_text(ad.b as u32);
    let t3 = dec_text(ad.c as u32);
    let t4 = dec_text(ad.d as u32);
    let t5 = dec_text(ad.port as u32);
    let l1 = t1.len() as int;
    let l2 = t2.len() as int;
    let l3 = t3.len() as int;
    let l4 = t4.len() as int;
    let l5 = t5.len() as int;
    let p2 = l1 + 1;
    let p3 = l1 + 1 + l2 + 1;
    let p4 = l1 + 1 + l2 + 1 + l3 + 1;
    let p5 = l1 + 1 + l2 + 1 + l3 + 1 + l4 + 1;
    assert(t.subrange(0, l1) =~= t1);
    assert(t.subrange(p2, p2 + l2) =~= t2);
    assert(t.subrange(p3, p3 + l3) =~= t3);
    assert(t.subrange(p4, p4 + l4) =~= t4);
    assert(t.subrange(p5, t.len() as int) =~= t5);
    assert forall|j: int| 0 <= j < l1 implies is_dec(#[trigger] t[j]) by {
        assert(t[j] == t1[j]);
    }
    lemma_dec_run_of(t, 0, l1);
    assert forall|j: int| p2 <= j < p2 + l2 implies is_dec(#[trigger] t[j]) by {
        assert(t[j] == t2[j - p2]);
    }
    lemma_dec_run_of(t, p2, p2 + l2);
    assert forall|j: int| p3 <= j < p3 + l3 implies is_dec(#[trigger] t[j]) by {
        assert(t[j] == t3[j - p3]);
    }
    lemma_dec_run_of(t, p3, p3 + l3);
    assert forall|j: int| p4 <= j < p4 + l4 implies is_dec(#[trigger] t[j]) by {
        assert(t[j] == t4[j - p4]);
    }
    lemma_dec_run_of(t, p4, p4 + l4);
    assert forall|j: int| p5 <= j < t.len() implies is_dec(#[trigger] t[j]) by {
        assert(t[j] == t5[j - p5]);
    }
    lemma_dec_run_of(t, p5, t.len() as int);
}

/// The canonical text determines the address.
pub proof fn lemma_addr_text_injective(x: Address, y: Address)
    requires
        addr_text(x) == addr_text(y),
    ensures
        x == y,
{
    let t = addr_text(x);
    lemma_addr_decomp(t, x);
    lemma_addr_decomp(t, y);
    lemma_dec_text_shape(x.a as u32);
    lemma_dec_text_shape(y.a as u32);
    lemma_dec_text_shape(x.b as u32);
    lemma_dec_text_shape(y.b as u32);
    lemma_dec_text_shape(x.c as u32);
    lemma_dec_text_shape(y.c as u32);
    lemma_dec_text_shape(x.d as u32);
    lemma_dec_text_shape(y.d as u32);
    lemma_dec_text_shape(x.port as u32);
    lemma_dec_text_shape(y.port as u32);
}

/// Decode the canonical text of an address; fails exactly on text that
/// no address encodes to.
pub fn decode_address(s: &str) -> (r: Option<Address>)
    ensures
        r matches Some(ad) ==> s@ == addr_text(ad),
        r is None ==> forall|ad: Address| s@ != addr_text(ad),
{
    let ghost t = s@;
    let n = s.unicode_len();
    let r1 = scan_dec(s, 0);
    let (e1, va) = match r1 {
        None => {
            proof {
                assert forall|ad: Address| t != addr_text(ad) by {
                    if t == addr_text(ad) {
                        lemma_addr_decomp(t, ad);
                    }
                }
            }
            return None;
        },
        Some(ev) => ev,
    };
    if e1 >= n || va > 255 {
        proof {
            assert forall|ad: Address| t != addr_text(ad) by {
                if t == addr_text(ad) {
                    lemma_addr_decomp(t, ad);
                    lemma_dec_text_shape(ad.a as u32);
                    lemma_dec_text_shape(va);
                }
            }
        }
        return None;
    }
    if s.get_char(e1) != '.' {
        proof {
            assert forall|ad: Address| t != addr_text(ad) by {
                if t == addr_text(ad) {
                    lemma_addr_decomp(t, ad);
                }
            }
        }
        return None;
    }
    let r2 = scan_dec(s, e1 + 1);
    let (e2, vb) = match r2 {
        None => {
            proof {
                assert forall|ad: Address| t != addr_text(ad) by {
                    if t == addr_text(ad) {
                        lemma_addr_decomp(t, ad);
                        lemma_dec_text_shape(ad.a as u32);
                    }
                }
            }
            return None;
        },
        Some(ev) => ev,
    };
    if e2 >= n || vb > 255 {
        proof {
            assert forall|ad: Address| t != addr_text(ad) by {
                if t == addr_text(ad) {
                    lemma_addr_decomp(t, ad);
                    lemma_dec_text_shape(ad.a as u32);
                    lemma_dec_text_shape(ad.b as u32);
                    lemma_dec_text_shape(vb);
                }
            }
        }
        return None;
    }
    if s.get_char(e2) != '.' {
        proof {
            assert forall|ad: Address| t != addr_text(ad) by {
                if t == addr_text(ad) {
                    lemma_addr_decomp(t, ad);
                    lemma_dec_text_shape(ad.a as u32);
                }
            }
        }
        return None;
    }
    let r3 = scan_dec(s, e2 + 1);
    let (e3, vc) = match r3 {
        None => {
            proof {
                assert forall|ad: Address| t != addr_text(ad) by {
                    if t == addr_text(ad) {
                        lemma_addr_decomp(t, ad);
                        lemma_dec_text_shape(ad.a as u32);
                        lemma_dec_text_shape(ad.b as u32);
                    }
                }
            }
            return None;
        },
        Some(ev) => ev,
    };
    if e3 >= n || vc > 255 {
        proof {
            assert forall|ad: Address| t != addr_text(ad) by {
                if t == addr_text(ad) {
                    lemma_addr_decomp(t, ad);
                    lemma_dec_text_shape(ad.a as u32);
                    lemma_dec_text_shape(ad.b as u32);
                    lemma_dec_text_shape(ad.c as u32);
                    lemma_dec_text_shape(vc);
                }
            }
        }
        return None;
    }
    if s.get_char(e3) != '.' {
        proof {
            assert forall|ad: Address| t != addr_text(ad) by {
                if t == addr_text(ad) {
                    lemma_addr_decomp(t, ad);
                    lemma_dec_text_shape(ad.a as u32);
                    lemma_dec_text_shape(ad.b as u32);
                }
            }
        }
        return None;
    }
    let r4 = scan_dec(s, e3 + 1);
    let (e4, vd) = match r4 {
        None => {
            proof {
                assert forall|ad: Address| t != addr_text(ad) by {
                    if t == addr_text(ad) {
                        lemma_addr_decomp(t, ad);
                        lemma_dec_text_shape(ad.a as u32);
                        lemma_dec_text_shape(ad.b as u32);
                        lemma_dec_text_shape(ad.c as u32);
                    }
                }
            }
            return None;
        },
        Some(ev) => ev,
    };
    if e4 >= n || vd > 255 {
        proof {
            assert forall|ad: Address| t != addr_text(ad) by {
                if t == addr_text(ad) {
                    lemma_addr_decomp(t, ad);
                    lemma_dec_text_shape(ad.a as u32);
                    lemma_dec_text_shape(ad.b as u32);
                    lemma_dec_text_shape(ad.c as u32);
                    lemma_dec_text_shape(ad.d as u32);
                    lemma_dec_text_shape(vd);
                }
            }
        }
        return None;
    }
    if s.get_char(e4) != ':' {
        proof {
            assert forall|ad: Address| t != addr_text(ad) by {
                if t == addr_text(ad) {
                    lemma_addr_decomp(t, ad);
                    lemma_dec_text_shape(ad.a as u32);
                    lemma_dec_text_shape(ad.b as u32);
                    lemma_dec_text_shape(ad.c as u32);
                }
            }
        }
        return None;
    }
    let r5 = scan_dec(s, e4 + 1);
    let (e5, vp) = match r5 {
        None => {
            proof {
                assert forall|ad: Address| t != addr_text(ad) by {
                    if t == addr_text(ad) {
                        lemma_addr_decomp(t, ad);
                        lemma_dec_text_shape(ad.a as u32);
                        lemma_dec_text_shape(ad.b as u32);
                        lemma_dec_text_shape(ad.c as u32);
                        lemma_dec_text_shape(ad.d as u32);
                    }
                }
            }
            return None;
        },
        Some(ev) => ev,
    };
    if e5 != n || vp > 65535 {
        proof {
            assert forall|ad: Address| t != addr_text(ad) by {
                if t == addr_text(ad) {
                    lemma_addr_decomp(t, ad);
                    lemma_dec_text_shape(ad.a as u32);
                    lemma_dec_text_shape(ad.b as u32);
                    lemma_dec_text_shape(ad.c as u32);
                    lemma_dec_text_shape(ad.d as u32);
                    lemma_dec_text_shape(ad.port as u32);
                    lemma_dec_text_shape(vp);
                }
            }
        }
        return None;
    }
    let ad = Address { a: va as u8, b: vb as u8, c: vc as u8, d: vd as u8, port: vp as u16 };
    proof {
        assert(ad.a as u32 == va && ad.b as u32 == vb && ad.c as u32 == vc && ad.d as u32 == vd
            && ad.port as u32 == vp);
        assert(t =~= addr_text(ad)) by {
            let t1 = dec_text(ad.a as u32);
            let t2 = dec_text(ad.b as u32);
            let t3 = dec_text(ad.c as u32);
            let t4 = dec_text(ad.d as u32);
            let t5 = dec_text(ad.port as u32);
            assert(t.subrange(0, e1 as int) == t1);
            assert(t.subrange(e1 as int + 1, e2 as int) == t2);
            assert(t.subrange(e2 as int + 1, e3 as int) == t3);
            assert(t.subrange(e3 as int + 1, e4 as int) == t4);
            assert(t.subrange(e4 as int + 1, n as int) == t5);
            assert forall|i: int| 0 <= i < t.len() implies t[i] == addr_text(ad)[i] by {
                if i < e1 {
                    assert(t[i] == t.subrange(0, e1 as int)[i]);
                } else if i == e1 {
                } else if i < e2 {
                    assert(t[i] == t.subrange(e1 as int + 1, e2 as int)[i - e1 - 1]);
                } else if i == e2 {
                } else if i < e3 {
                    assert(t[i] == t.subrange(e2 as int + 1, e3 as int)[i - e2 - 1]);
                } else if i == e3 {
                } else if i < e4 {
                    assert(t[i] == t.subrange(e3 as int + 1, e4 as int)[i - e3 - 1]);
                } else if i == e4 {
                } else {
                    assert(t[i] == t.subrange(e4 as int + 1, n as int)[i - e4 - 1]);
                }
            }
        }
    }
    Some(ad)
}

} // verus!
