//! The canonical text form of a node: its address and its identifier,
//! quoted and labelled.

use vstd::prelude::*;

use crate::address::{
    addr_text, append_address, decode_address, lemma_addr_text_injective, lemma_addr_text_plain,
    Address,
};
use crate::base::{GenericId, Node};
use crate::digits::is_dec;

verus! {

/// The opening of the text form, up to the address.
pub open spec fn node_prefix() -> Seq<char> {
    seq!['{', '"', 'a', 'd', 'd', 'r', 'e', 's', 's', '"', ':', ' ', '"']
}

/// The middle of the text form, between the address and the identifier.
pub open spec fn node_mid() -> Seq<char> {
    seq!['"', ',', ' ', '"', 'i', 'd', '"', ':', ' ', '"']
}

/// The closing of the text form.
pub open spec fn node_suffix() -> Seq<char> {
    seq!['"', '}']
}

/// The canonical text form of a node: the address and the identifier in
/// their canonical texts, quoted and labelled.
pub open spec fn node_text<TId: GenericId>(idv: <TId as DeepView>::V, ad: Address) -> Seq<char> {
    node_prefix() + addr_text(ad) + node_mid() + TId::text_v(idv) + node_suffix()
}

/// No character of an address text is a quote.
proof fn lemma_addr_text_no_quote(ad: Address)
    ensures
        forall|i: int| 0 <= i < addr_text(ad).len() ==> (#[trigger] addr_text(ad)[i]) != '"',
{
    lemma_addr_text_plain(ad);
    assert forall|i: int| 0 <= i < addr_text(ad).len() implies (#[trigger] addr_text(ad)[i])
        != '"' by {
        assert(is_dec(addr_text(ad)[i]) || addr_text(ad)[i] == '.' || addr_text(ad)[i] == ':');
    }
}

/// The canonical text determines the node: equal texts carry the same
/// identifier value and the same address.
pub proof fn lemma_node_text_injective<TId: GenericId>(
    id1: <TId as DeepView>::V,
    ad1: Address,
    id2: <TId as DeepView>::V,
    ad2: Address,
)
    requires
        node_text::<TId>(id1, ad1) == node_text::<TId>(id2, ad2),
    ensures
        id1 == id2,
        ad1 == ad2,
{
    let t = node_text::<TId>(id1, ad1);
    let a1 = addr_text(ad1);
    let a2 = addr_text(ad2);
    lemma_addr_text_no_quote(ad1);
    lemma_addr_text_no_quote(ad2);
    assert(t[13 + a1.len() as int] == '"');
    assert(t[13 + a2.len() as int] == '"');
    if a1.len() < a2.len() {
        assert(t[13 + a1.len() as int] == a2[a1.len() as int]);
        assert(false);
    }
    if a2.len() < a1.len() {
        assert(t[13 + a2.len() as int] == a1[a2.len() as int]);
        assert(false);
    }
    assert(a1 =~= a2) by {
        assert forall|i: int| 0 <= i < a1.len() implies a1[i] == a2[i] by {
            assert(t[13 + i] == a1[i]);
            assert(t[13 + i] == a2[i]);
        }
    }
    lemma_addr_text_injective(ad1, ad2);
    let h1 = TId::text_v(id1);
    let h2 = TId::text_v(id2);
    assert(h1.len() == h2.len()) by {
        assert(t.len() == 13 + a1.len() + 10 + h1.len() + 2);
        assert(t.len() == 13 + a2.len() + 10 + h2.len() + 2);
    }
    let base = 13 + a1.len() + 10;
    assert(h1 =~= h2) by {
        assert forall|i: int| 0 <= i < h1.len() implies h1[i] == h2[i] by {
            assert(t[base + i] == h1[i]);
            assert(t[base + i] == h2[i]);
        }
    }
    TId::lemma_text_injective(id1, id2);
}

impl<TId: GenericId> Node<TId, Address> {
    /// The canonical text encoding of this node.
    pub fn encode(&self) -> (r: String)
        ensures
            r@ == node_text::<TId>(self.id.deep_view(), self.address),
    {
        proof {
            reveal_strlit("{\"address\": \"");
            reveal_strlit("\", \"id\": \"");
            reveal_strlit("\"}");
        }
        let mut out = String::new();
        out.append("{\"address\": \"");
        append_address(&mut out, &self.address);
        out.append("\", \"id\": \"");
        let idtext = self.id.encode();
        out.append(idtext.as_str());
        out.append("\"}");
        proof {
            assert("{\"address\": \""@ =~= node_prefix());
            assert("\", \"id\": \""@ =~= node_mid());
            assert("\"}"@ =~= node_suffix());
            assert(out@ =~= node_text::<TId>(self.id.deep_view(), self.address));
        }
        out
    }

    /// Decode the canonical text encoding of a node; fails exactly on
    /// text that no node encodes to, a malformed address and a malformed
    /// identifier included.
    pub fn decode(s: &str) -> (r: Option<Node<TId, Address>>)
        ensures
            r matches Some(n) ==> s@ == node_text::<TId>(n.id.deep_view(), n.address),
            r is None ==> forall|idv: <TId as DeepView>::V, ad: Address|
                s@ != node_text::<TId>(idv, ad),
    {
        let ghost t = s@;
        proof {
            reveal_strlit("{\"address\": \"");
            reveal_strlit("\", \"id\": \"");
        }
        let p = "{\"address\": \"";
        let m = "\", \"id\": \"";
        proof {
            assert(p@ =~= node_prefix());
            assert(m@ =~= node_mid());
        }
        let n = s.unicode_len();
        if n < 13 {
            proof {
                assert forall|idv: <TId as DeepView>::V, ad: Address| t != node_text::<TId>(
                    idv,
                    ad,
                ) by {}
            }
            return None;
        }
        // the fixed opening
        let mut i: usize = 0;
        while i < 13
            invariant
                i <= 13,
                13 <= n == t.len(),
                t == s@,
                p@ == node_prefix(),
                forall|j: int| 0 <= j < i ==> t[j] == node_prefix()[j],
            decreases 13 - i,
        {
            if s.get_char(i) != p.get_char(i) {
                proof {
                    assert forall|idv: <TId as DeepView>::V, ad: Address| t != node_text::<TId>(
                        idv,
                        ad,
                    ) by {
                        if t == node_text::<TId>(idv, ad) {
                            assert(t[i as int] == node_prefix()[i as int]);
                        }
                    }
                }
                return None;
            }
            i = i + 1;
        }
        // the quote closing the address
        let mut q: usize = 13;
        while q < n
            invariant_except_break
                13 <= q <= n == t.len(),
                t == s@,
                forall|j: int| 13 <= j < q ==> t[j] != '"',
            ensures
                13 <= q <= n == t.len(),
                forall|j: int| 13 <= j < q ==> t[j] != '"',
                q < n ==> t[q as int] == '"',
            decreases n - q,
        {
            if s.get_char(q) == '"' {
                break ;
            }
            q = q + 1;
        }
        if q == n {
            proof {
                assert forall|idv: <TId as DeepView>::V, ad: Address| t != node_text::<TId>(
                    idv,
                    ad,
                ) by {
                    if t == node_text::<TId>(idv, ad) {
                        assert(t[13 + addr_text(ad).len() as int] == '"');
                    }
                }
            }
            return None;
        }
        // the address
        let addr_str = s.substring_char(13, q);
        let ghost aseg = t.subrange(13, q as int);
        let decoded_addr = decode_address(addr_str);
        let ad = match decoded_addr {
            None => {
                proof {
                    assert forall|idv: <TId as DeepView>::V, ad: Address| t != node_text::<TId>(
                        idv,
                        ad,
                    ) by {
                        if t == node_text::<TId>(idv, ad) {
                            lemma_addr_text_no_quote(ad);
                            let al = addr_text(ad).len() as int;
                            assert(t[13 + al] == '"');
                            assert forall|j: int| 13 <= j < 13 + al implies t[j] != '"' by {
                                assert(t[j] == addr_text(ad)[j - 13]);
                            }
                            assert(q == 13 + al);
                            assert(aseg =~= addr_text(ad));
                        }
                    }
                }
                return None;
            },
            Some(ad) => ad,
        };
        // the fixed middle and the closing
        if n - q < 12 {
            proof {
                assert forall|idv: <TId as DeepView>::V, ad2: Address| t != node_text::<TId>(
                    idv,
                    ad2,
                ) by {
                    if t == node_text::<TId>(idv, ad2) {
                        lemma_addr_text_no_quote(ad2);
                        let al = addr_text(ad2).len() as int;
                        assert(t[13 + al] == '"');
                        assert forall|j: int| 13 <= j < 13 + al implies t[j] != '"' by {
                            assert(t[j] == addr_text(ad2)[j - 13]);
                        }
                        assert(q == 13 + al);
                        assert(t.len() == q + 12 + TId::text_v(idv).len());
                    }
                }
            }
            return None;
        }
        let mut k: usize = 0;
        while k < 10
            invariant
                k <= 10,
                13 <= q,
                q + 12 <= n == t.len(),
                t == s@,
                m@ == node_mid(),
                forall|j: int| 13 <= j < q ==> t[j] != '"',
                t[q as int] == '"',
                forall|j: int| 0 <= j < k ==> t[q + j] == node_mid()[j],
            decreases 10 - k,
        {
            if s.get_char(q + k) != m.get_char(k) {
                proof {
                    assert forall|idv: <TId as DeepView>::V, ad2: Address| t != node_text::<TId>(
                        idv,
                        ad2,
                    ) by {
                        if t == node_text::<TId>(idv, ad2) {
                            lemma_addr_text_no_quote(ad2);
                            let al = addr_text(ad2).len() as int;
                            assert(t[13 + al] == '"');
                            assert forall|j: int| 13 <= j < 13 + al implies t[j] != '"' by {
                                assert(t[j] == addr_text(ad2)[j - 13]);
                            }
                            assert(q == 13 + al);
                            assert(t[q + k] == node_mid()[k as int]);
                        }
                    }
                }
                return None;
            }
            k = k + 1;
        }
        proof {
            reveal_strlit("\"");
            reveal_strlit("}");
        }
        let close_quote = s.get_char(n - 2);
        let close_brace = s.get_char(n - 1);
        if close_quote != '"' || close_brace != '}' {
            proof {
                assert forall|idv: <TId as DeepView>::V, ad2: Address| t != node_text::<TId>(
                    idv,
                    ad2,
                ) by {
                    if t == node_text::<TId>(idv, ad2) {
                        assert(t[t.len() - 2] == '"');
                        assert(t[t.len() - 1] == '}');
                    }
                }
            }
            return None;
        }
        // the identifier
        let id_str = s.substring_char(q + 10, n - 2);
        let ghost iseg = t.subrange(q as int + 10, n as int - 2);
        let decoded_id = TId::decode(id_str);
        let id = match decoded_id {
            None => {
                proof {
                    assert forall|idv: <TId as DeepView>::V, ad2: Address| t != node_text::<TId>(
                        idv,
                        ad2,
                    ) by {
                        if t == node_text::<TId>(idv, ad2) {
                            lemma_addr_text_no_quote(ad2);
                            let al = addr_text(ad2).len() as int;
                            assert(t[13 + al] == '"');
                            assert forall|j: int| 13 <= j < 13 + al implies t[j] != '"' by {
                                assert(t[j] == addr_text(ad2)[j - 13]);
                            }
                            assert(q == 13 + al);
                            let il = TId::text_v(idv).len() as int;
                            assert(t.len() == q + 12 + il);
                            assert forall|j: int| 0 <= j < il implies iseg[j] == TId::text_v(
                                idv,
                            )[j] by {
                                assert(t[q + 10 + j] == TId::text_v(idv)[j]);
                            }
                            assert(iseg =~= TId::text_v(idv));
                        }
                    }
                }
                return None;
            },
            Some(id) => id,
        };
        let node = Node { address: ad, id };
        proof {
            let idv = node.id.deep_view();
            assert(aseg == addr_text(ad));
            assert(iseg == TId::text_v(idv));
            assert(t.len() == 13 + (q - 13) + 10 + (n - 2 - (q + 10)) + 2);
            assert(t =~= node_text::<TId>(idv, ad)) by {
                let rhs = node_text::<TId>(idv, ad);
                assert(addr_text(ad).len() == q - 13);
                assert(TId::text_v(idv).len() == n - 2 - (q + 10));
                assert(rhs.len() == t.len());
                assert forall|j: int| 0 <= j < t.len() implies t[j] == rhs[j] by {
                    if j < 13 {
                        assert(t[j] == node_prefix()[j]);
                    } else if j < q {
                        assert(t[j] == aseg[j - 13]);
                        assert(rhs[j] == addr_text(ad)[j - 13]);
                    } else if j < q + 10 {
                        assert(t[j] == node_mid()[j - q]);
                        assert(rhs[j] == node_mid()[j - q]);
                    } else if j < n - 2 {
                        assert(t[j] == iseg[j - q - 10]);
                        assert(rhs[j] == TId::text_v(idv)[j - q - 10]);
                    } else {
                        assert(rhs[j] == node_suffix()[j - (t.len() - 2)]);
                    }
                }
            }
        }
        Some(node)
    }
}

} // verus!
