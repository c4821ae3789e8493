//! Core abstractions: identifiers, nodes, and the node table interface.

use vstd::prelude::*;

verus! {

/// Capability interface for DHT identifiers.
///
/// An identifier is an opaque bit string supporting XOR (the Kademlia
/// distance metric), a zero test, bit length, and magnitude comparison.
/// Every identifier abstracts (through [`DeepView`]) to a mathematical
/// value of type `Self::V`, and all contracts are stated over those
/// abstract values.
pub trait GenericId: DeepView + Sized {
    /// Width in bits of the identifier space this abstract value inhabits.
    spec fn width_v(a: <Self as DeepView>::V) -> nat;

    /// Bitwise XOR of two abstract identifier values.
    spec fn xor_v(a: <Self as DeepView>::V, b: <Self as DeepView>::V) -> <Self as DeepView>::V;

    /// Whether an abstract identifier value is zero.
    spec fn is_zero_v(a: <Self as DeepView>::V) -> bool;

    /// Position of the highest set bit plus one; zero has bit length zero.
    spec fn bits_v(a: <Self as DeepView>::V) -> nat;

    /// Magnitude order on abstract identifier values.
    spec fn le_v(a: <Self as DeepView>::V, b: <Self as DeepView>::V) -> bool;

    /// Bit sizes for which random generation is possible.
    spec fn gen_ok(bit_size: usize) -> bool;

    /// XOR is symmetric.
    proof fn lemma_xor_comm(a: <Self as DeepView>::V, b: <Self as DeepView>::V)
        ensures
            Self::xor_v(a, b) == Self::xor_v(b, a),
    ;

    /// XOR of a value with itself is zero.
    proof fn lemma_xor_self(a: <Self as DeepView>::V)
        ensures
            Self::is_zero_v(Self::xor_v(a, a)),
    ;

    /// Within one width, XOR is zero exactly on equal values.
    proof fn lemma_xor_zero(a: <Self as DeepView>::V, b: <Self as DeepView>::V)
        requires
            Self::width_v(a) == Self::width_v(b),
        ensures
            Self::is_zero_v(Self::xor_v(a, b)) <==> a == b,
    ;

    /// XOR does not widen its operands.
    proof fn lemma_xor_width(a: <Self as DeepView>::V, b: <Self as DeepView>::V)
        ensures
            Self::width_v(Self::xor_v(a, b)) <= Self::width_v(a),
            Self::width_v(a) == Self::width_v(b) ==> Self::width_v(Self::xor_v(a, b))
                == Self::width_v(a),
    ;

    /// The magnitude order is total.
    proof fn lemma_le_total(a: <Self as DeepView>::V, b: <Self as DeepView>::V)
        ensures
            Self::le_v(a, b) || Self::le_v(b, a),
    ;

    /// The magnitude order is transitive.
    proof fn lemma_le_trans(
        a: <Self as DeepView>::V,
        b: <Self as DeepView>::V,
        c: <Self as DeepView>::V,
    )
        requires
            Self::le_v(a, b),
            Self::le_v(b, c),
        ensures
            Self::le_v(a, c),
    ;

    /// Only zero lies below zero within one width.
    proof fn lemma_le_zero(a: <Self as DeepView>::V, b: <Self as DeepView>::V)
        requires
            Self::le_v(a, b),
            Self::is_zero_v(b),
            Self::width_v(a) == Self::width_v(b),
        ensures
            Self::is_zero_v(a),
    ;

    /// Bit length is zero exactly on zero, and never exceeds the width.
    proof fn lemma_bits_range(a: <Self as DeepView>::V)
        ensures
            Self::is_zero_v(a) <==> Self::bits_v(a) == 0,
            Self::bits_v(a) <= Self::width_v(a),
    ;

    /// Bitwise XOR.
    fn bitxor(&self, other: &Self) -> (r: Self)
        ensures
            r.deep_view() == Self::xor_v(self.deep_view(), other.deep_view()),
    ;

    /// Zero test.
    fn is_zero(&self) -> (r: bool)
        ensures
            r == Self::is_zero_v(self.deep_view()),
    ;

    /// Bit length: position of the highest set bit plus one.
    fn bits(&self) -> (r: usize)
        requires
            Self::width_v(self.deep_view()) <= usize::MAX,
        ensures
            r == Self::bits_v(self.deep_view()),
    ;

    /// Magnitude comparison.
    fn le(&self, other: &Self) -> (r: bool)
        ensures
            r == Self::le_v(self.deep_view(), other.deep_view()),
    ;

    /// Equality of identifiers.
    fn eq_id(&self, other: &Self) -> (r: bool)
        ensures
            r == (self.deep_view() == other.deep_view()),
    ;

    /// An owned copy with the same abstract value.
    fn duplicate(&self) -> (r: Self)
        ensures
            r.deep_view() == self.deep_view(),
    ;

    /// The width of a generated identifier: `bit_size` rounded up to
    /// whatever granularity the identifier shape carries.
    spec fn gen_width(bit_size: usize) -> nat;

    /// A random identifier no wider than `bit_size` bits.
    fn gen(bit_size: usize) -> (r: Self)
        requires
            Self::gen_ok(bit_size),
        ensures
            Self::bits_v(r.deep_view()) <= bit_size,
            Self::width_v(r.deep_view()) == Self::gen_width(bit_size),
    ;

    /// Canonical lowercase hexadecimal text of an abstract identifier
    /// value.
    spec fn text_v(a: <Self as DeepView>::V) -> Seq<char>;

    /// The canonical text determines the identifier value.
    proof fn lemma_text_injective(a: <Self as DeepView>::V, b: <Self as DeepView>::V)
        requires
            Self::text_v(a) == Self::text_v(b),
        ensures
            a == b,
    ;

    /// The canonical text encoding of this identifier.
    fn encode(&self) -> (r: String)
        ensures
            r@ == Self::text_v(self.deep_view()),
    ;

    /// Decode the canonical text encoding; fails exactly on text that no
    /// identifier encodes to.
    fn decode(s: &str) -> (r: Option<Self>)
        ensures
            r matches Some(v) ==> s@ == Self::text_v(v.deep_view()),
            r is None ==> forall|a: <Self as DeepView>::V| s@ != Self::text_v(a),
    ;
}

/// Capability interface for node addresses: an opaque endpoint value that
/// the routing logic stores and hands back but never interprets.
pub trait GenericAddr: DeepView + Sized {
    /// An owned copy with the same abstract value.
    fn duplicate(&self) -> (r: Self)
        ensures
            r.deep_view() == self.deep_view(),
    ;
}

impl GenericAddr for () {
    fn duplicate(&self) -> (r: ()) {
        ()
    }
}

impl GenericAddr for String {
    fn duplicate(&self) -> (r: String) {
        self.clone()
    }
}

/// A node in the system: a network address paired with a numeric ID used
/// to calculate metrics and look up data.
#[derive(Clone, Debug)]
pub struct Node<TId, TAddr> {
    /// Network address of the node.
    pub address: TAddr,
    /// ID of the node.
    pub id: TId,
}

/// The abstract value of a node: its identifier's and address's views.
pub open spec fn node_view<TId: GenericId, TAddr: GenericAddr>(n: Node<TId, TAddr>) -> (
    <TId as DeepView>::V,
    <TAddr as DeepView>::V,
) {
    (n.id.deep_view(), n.address.deep_view())
}

impl<TId: GenericId, TAddr: GenericAddr> Node<TId, TAddr> {
    /// An owned copy denoting the same node.
    pub fn duplicate(&self) -> (r: Node<TId, TAddr>)
        ensures
            node_view(r) == node_view(*self),
    {
        Node { address: self.address.duplicate(), id: self.id.duplicate() }
    }
}

/// Abstract values of a sequence of nodes.
pub open spec fn views_of<TId: GenericId, TAddr: GenericAddr>(s: Seq<Node<TId, TAddr>>) -> Seq<
    (<TId as DeepView>::V, <TAddr as DeepView>::V),
> {
    s.map_values(|n: Node<TId, TAddr>| node_view::<TId, TAddr>(n))
}

/// Whether `a` is at most as far from `t` as `b`, under the XOR metric.
pub open spec fn dist_le<TId: GenericId>(
    t: <TId as DeepView>::V,
    a: <TId as DeepView>::V,
    b: <TId as DeepView>::V,
) -> bool {
    TId::le_v(TId::xor_v(t, a), TId::xor_v(t, b))
}

/// Node values ordered by non-decreasing XOR distance to `t`.
pub open spec fn sorted_by_dist<TId: GenericId, TAddr: GenericAddr>(
    t: <TId as DeepView>::V,
    s: Seq<(<TId as DeepView>::V, <TAddr as DeepView>::V)>,
) -> bool {
    forall|i: int, j: int| 0 <= i <= j < s.len() ==> dist_le::<TId>(t, s[i].0, s[j].0)
}

/// Interface of a table of known nodes.
///
/// A table keeps some subset of the nodes passed to `update`, arranged so
/// that `find` can produce the stored nodes closest to a target ID.
pub trait GenericNodeTable<TId: GenericId, TAddr: GenericAddr>: Sized {
    /// Structural invariant of the table.
    open spec fn wf(&self) -> bool {
        true
    }

    /// Abstract values of all stored nodes.
    open spec fn nodes(&self) -> Seq<(<TId as DeepView>::V, <TAddr as DeepView>::V)> {
        Seq::empty()
    }

    /// Identifier values this table can route: updates and lookups are
    /// defined only on accepted identifiers.
    open spec fn accepts(&self, id: <TId as DeepView>::V) -> bool {
        true
    }

    /// Whether an update with this node would be stored (it is already
    /// known, or there is room for it).
    open spec fn can_update(&self, node: (<TId as DeepView>::V, <TAddr as DeepView>::V)) -> bool {
        true
    }

    /// The node values `pop_oldest` would hand out in this state: the
    /// oldest inhabitant of every part of the table that is at capacity.
    open spec fn pop_candidates(&self) -> Seq<(<TId as DeepView>::V, <TAddr as DeepView>::V)> {
        Seq::empty()
    }


    /// Generate a suitable random ID.
    fn random_id(&self) -> (r: TId)
        requires
            self.wf(),
    ;

    /// Store or refresh a node; report whether it is now stored.
    fn update(&mut self, node: &Node<TId, TAddr>) -> (r: bool)
        requires
            old(self).wf(),
            old(self).accepts(node.id.deep_view()),
        ensures
            final(self).wf(),
            forall|x: <TId as DeepView>::V| final(self).accepts(x) == old(self).accepts(x),
            r == old(self).can_update(node_view(*node)),
            r ==> final(self).nodes().contains(node_view(*node)),
            r && (exists|p: (<TId as DeepView>::V, <TAddr as DeepView>::V)|
                #[trigger] old(self).nodes().contains(p) && p.0 == node.id.deep_view())
                ==> final(self).nodes().len() == old(self).nodes().len(),
            r && !(exists|p: (<TId as DeepView>::V, <TAddr as DeepView>::V)|
                #[trigger] old(self).nodes().contains(p) && p.0 == node.id.deep_view())
                ==> final(self).nodes().len() == old(self).nodes().len() + 1,
            !r ==> final(self).nodes() == old(self).nodes(),
    ;

    /// Up to `count` stored nodes, closest to the given ID.
    fn find(&self, id: &TId, count: usize) -> (r: Vec<Node<TId, TAddr>>)
        requires
            self.wf(),
            count >= 1,
            self.accepts(id.deep_view()),
        ensures
            r@.len() == vstd::math::min(count as int, self.nodes().len() as int),
            sorted_by_dist::<TId, TAddr>(id.deep_view(), views_of(r@)),
            views_of(r@).to_multiset().subset_of(self.nodes().to_multiset()),
            forall|i: int|
                0 <= i < r@.len() ==> self.nodes().contains(#[trigger] node_view(r@[i])),
            forall|x: (<TId as DeepView>::V, <TAddr as DeepView>::V)|
                self.nodes().to_multiset().contains(x) && !views_of(r@).to_multiset().contains(x)
                    ==> forall|i: int|
                    0 <= i < r@.len() ==> dist_le::<TId>(
                        id.deep_view(),
                        #[trigger] views_of(r@)[i].0,
                        x.0,
                    ),
            (exists|p: (<TId as DeepView>::V, <TAddr as DeepView>::V)|
                self.nodes().contains(p) && p.0 == id.deep_view()) ==> (exists|i: int|
                0 <= i < r@.len() && r@[i].id.deep_view() == id.deep_view()),
    ;

    /// Pop the oldest node from every full bucket, for liveness inspection.
    fn pop_oldest(&mut self) -> (r: Vec<Node<TId, TAddr>>)
        requires
            old(self).wf(),
        ensures
            final(self).wf(),
            forall|x: <TId as DeepView>::V| final(self).accepts(x) == old(self).accepts(x),
            views_of(r@) == old(self).pop_candidates(),
            final(self).nodes().to_multiset().add(old(self).pop_candidates().to_multiset())
                == old(self).nodes().to_multiset(),
            forall|i: int|
                0 <= i < r@.len() ==> old(self).nodes().contains(#[trigger] node_view(r@[i]))
                    && final(self).accepts(r@[i].id.deep_view()),
    ;
}

/// What one table update owes: the invariant and the accepted
/// identifiers are preserved, the call succeeds exactly when the table
/// can take the node, a stored node is among the table's nodes, and a
/// rejected one leaves them unchanged.
pub open spec fn table_update_post<
    TId: GenericId,
    TAddr: GenericAddr,
    TTable: GenericNodeTable<TId, TAddr>,
>(
    pre: TTable,
    post: TTable,
    node: (<TId as DeepView>::V, <TAddr as DeepView>::V),
    r: bool,
) -> bool {
    &&& post.wf()
    &&& (forall|x: <TId as DeepView>::V| post.accepts(x) == pre.accepts(x))
    &&& r == pre.can_update(node)
    &&& (r ==> post.nodes().contains(node))
    &&& (r && (exists|p: (<TId as DeepView>::V, <TAddr as DeepView>::V)|
        #[trigger] pre.nodes().contains(p) && p.0 == node.0) ==> post.nodes().len()
        == pre.nodes().len())
    &&& (r && !(exists|p: (<TId as DeepView>::V, <TAddr as DeepView>::V)|
        #[trigger] pre.nodes().contains(p) && p.0 == node.0) ==> post.nodes().len()
        == pre.nodes().len() + 1)
    &&& (!r ==> post.nodes() == pre.nodes())
}

/// What popping the oldest nodes owes: the invariant and the accepted
/// identifiers are preserved, and every candidate handed out was stored
/// and stays acceptable for re-insertion.
pub open spec fn table_pop_post<
    TId: GenericId,
    TAddr: GenericAddr,
    TTable: GenericNodeTable<TId, TAddr>,
>(pre: TTable, post: TTable) -> bool {
    &&& post.wf()
    &&& (forall|x: <TId as DeepView>::V| post.accepts(x) == pre.accepts(x))
    &&& post.nodes().to_multiset().add(pre.pop_candidates().to_multiset())
        == pre.nodes().to_multiset()
    &&& (forall|i: int|
        0 <= i < pre.pop_candidates().len() ==> pre.nodes().contains(
            #[trigger] pre.pop_candidates()[i],
        ) && post.accepts(pre.pop_candidates()[i].0))
}

/// Interface of a full DHT API as seen by client code: the four canonical
/// operations, each reporting its outcome through a callback.
pub trait GenericAPI<TId: GenericId, TAddr: GenericAddr> {
    /// Value type.
    type TValue;

    /// Ping a node.
    fn ping<F: FnOnce(&Node<TId, TAddr>, bool)>(&mut self, node: &Node<TId, TAddr>, callback: F);

    /// Return nodes closest to the given ID.
    fn find_node<F: FnOnce(Vec<Node<TId, TAddr>>)>(&mut self, id: &TId, callback: F);

    /// Find a value in the network: either the value or the closest nodes.
    fn find_value<F: FnOnce(Option<Self::TValue>, Vec<Node<TId, TAddr>>)>(
        &mut self,
        id: &TId,
        callback: F,
    );

    /// Store a value on a node.
    fn store(&mut self, node: &Node<TId, TAddr>, id: &TId, value: Self::TValue);
}

} // verus!
