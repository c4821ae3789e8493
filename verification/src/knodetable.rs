//! DHT node table implementation based on Kademlia.
//!
//! Nodes are kept in a number of k-buckets (one per bit of the identifier
//! space), where the N-th bucket holds nodes whose XOR distance from the
//! local identifier has bit length N+1. When a k-bucket is full no RPC
//! call is made: it is up to upper-level code to ensure proper clean up
//! through `pop_oldest`.

use vstd::multiset::Multiset;
use vstd::prelude::*;
use vstd::seq_lib::*;

use crate::base::{
    dist_le, node_view, sorted_by_dist, views_of, GenericAddr, GenericId, GenericNodeTable, Node,
};

verus! {

/// Default bucket capacity.
pub const BUCKET_SIZE: usize = 32;

/// Default size in bits of the identifier space.
pub const DEFAULT_HASH_SIZE: usize = 64;

/// K-bucket: a bounded, recency-ordered list of nodes, oldest first,
/// without duplicate identifiers.
pub struct KBucket<TId, TAddr> {
    data: Vec<Node<TId, TAddr>>,
    size: usize,
}

impl<TId: GenericId, TAddr: GenericAddr> KBucket<TId, TAddr> {
    /// Abstract values of the stored nodes, oldest first.
    pub closed spec fn view_nodes(&self) -> Seq<(<TId as DeepView>::V, <TAddr as DeepView>::V)> {
        views_of(self.data@)
    }

    /// Capacity of the bucket.
    pub closed spec fn capacity(&self) -> usize {
        self.size
    }

    /// Structural invariant: positive capacity, bounded length, and
    /// pairwise distinct identifiers.
    pub closed spec fn wf(&self) -> bool {
        &&& self.size >= 1
        &&& self.data@.len() <= self.size
        &&& forall|i: int, j: int|
            0 <= i < j < self.data@.len() ==> self.view_nodes()[i].0 != self.view_nodes()[j].0
    }

    /// Whether some stored node has the given identifier value.
    pub closed spec fn has_id(&self, id: <TId as DeepView>::V) -> bool {
        exists|i: int| 0 <= i < self.view_nodes().len() && self.view_nodes()[i].0 == id
    }

    /// Create an empty bucket of capacity `k`.
    pub fn new(k: usize) -> (r: KBucket<TId, TAddr>)
        requires
            k >= 1,
        ensures
            r.wf(),
            r.view_nodes().len() == 0,
            r.capacity() == k,
    {
        let r = KBucket { data: Vec::new(), size: k };
        proof {
            assert(r.view_nodes() =~= Seq::empty());
        }
        r
    }

    /// The stored nodes, oldest first.
    pub fn data(&self) -> (r: &Vec<Node<TId, TAddr>>)
        ensures
            views_of(r@) == self.view_nodes(),
    {
        &self.data
    }

    /// Capacity of the bucket.
    pub fn size(&self) -> (r: usize)
        ensures
            r == self.capacity(),
    {
        self.size
    }

    /// Index of the node with the given identifier, if any.
    fn position_of(&self, id: &TId) -> (r: Option<usize>)
        ensures
            match r {
                Some(j) => 0 <= j < self.view_nodes().len() && self.view_nodes()[j as int].0
                    == id.deep_view(),
                None => !self.has_id(id.deep_view()),
            },
    {
        let mut j: usize = 0;
        while j < self.data.len()
            invariant
                j <= self.data@.len(),
                forall|i: int| 0 <= i < j ==> self.view_nodes()[i].0 != id.deep_view(),
            decreases self.data@.len() - j,
        {
            let cand = &self.data[j];
            if cand.id.eq_id(id) {
                return Some(j);
            }
            j = j + 1;
        }
        None
    }

    /// Store or refresh a node.
    ///
    /// If a node with the same ID is present it is moved to the tail (the
    /// most-recently-seen position) and the call succeeds; otherwise the
    /// node is appended if there is room. A full bucket rejects unknown
    /// nodes and stays unchanged.
    pub fn update(&mut self, node: &Node<TId, TAddr>) -> (r: bool)
        requires
            old(self).wf(),
        ensures
            final(self).wf(),
            final(self).capacity() == old(self).capacity(),
            old(self).has_id(node.id.deep_view()) ==> r && final(self).view_nodes().len() == old(
                self,
            ).view_nodes().len() && (exists|j: int|
                0 <= j < old(self).view_nodes().len() && old(self).view_nodes()[j].0
                    == node.id.deep_view() && final(self).view_nodes() == old(
                    self,
                ).view_nodes().remove(j).push(node_view(*node))),
            !old(self).has_id(node.id.deep_view()) && old(self).view_nodes().len() < old(
                self,
            ).capacity() ==> r && final(self).view_nodes() == old(self).view_nodes().push(
                node_view(*node),
            ),
            !old(self).has_id(node.id.deep_view()) && old(self).view_nodes().len() == old(
                self,
            ).capacity() ==> !r && final(self).view_nodes() == old(self).view_nodes(),
            r == (old(self).has_id(node.id.deep_view()) || old(self).view_nodes().len() < old(
                self,
            ).capacity()),
            forall|q: int|
                0 <= q < final(self).view_nodes().len() ==> old(self).has_id(
                    #[trigger] final(self).view_nodes()[q].0,
                ) || final(self).view_nodes()[q].0 == node.id.deep_view(),
    {
        let ghost pre = *self;
        match self.position_of(&node.id) {
            Some(j) => {
                self.data.remove(j);
                self.data.push(node.duplicate());
                proof {
                    pre.view_nodes().remove_ensures(j as int);
                    assert(self.view_nodes() =~= pre.view_nodes().remove(j as int).push(
                        node_view(*node),
                    ));
                    assert forall|a: int, b: int|
                        0 <= a < b < self.view_nodes().len() implies self.view_nodes()[a].0
                        != self.view_nodes()[b].0 by {
                        assert(pre.has_id(node.id.deep_view()));
                    }
                }
                true
            },
            None => {
                if self.data.len() == self.size {
                    false
                } else {
                    self.data.push(node.duplicate());
                    proof {
                        assert(self.view_nodes() =~= pre.view_nodes().push(node_view(*node)));
                    }
                    true
                }
            },
        }
    }

    /// Remove the node with the given identifier; report whether one was
    /// removed.
    pub fn remove(&mut self, id: &TId) -> (r: bool)
        requires
            old(self).wf(),
        ensures
            final(self).wf(),
            final(self).capacity() == old(self).capacity(),
            old(self).has_id(id.deep_view()) ==> r && (exists|j: int|
                0 <= j < old(self).view_nodes().len() && old(self).view_nodes()[j].0
                    == id.deep_view() && final(self).view_nodes() == old(
                    self,
                ).view_nodes().remove(j)),
            !old(self).has_id(id.deep_view()) ==> !r && final(self).view_nodes() == old(
                self,
            ).view_nodes(),
            r == old(self).has_id(id.deep_view()),
    {
        let ghost pre = *self;
        match self.position_of(id) {
            Some(j) => {
                self.data.remove(j);
                proof {
                    assert(self.view_nodes() =~= pre.view_nodes().remove(j as int));
                }
                true
            },
            None => false,
        }
    }

    /// Remove and return the oldest node.
    fn pop_front(&mut self) -> (r: Node<TId, TAddr>)
        requires
            old(self).wf(),
            old(self).view_nodes().len() >= 1,
        ensures
            final(self).wf(),
            final(self).capacity() == old(self).capacity(),
            node_view(r) == old(self).view_nodes()[0],
            final(self).view_nodes() == old(self).view_nodes().drop_first(),
    {
        let ghost pre = *self;
        let r = self.data.remove(0);
        proof {
            assert(self.view_nodes() =~= pre.view_nodes().drop_first());
        }
        r
    }

    /// Up to `count` stored nodes, ordered by ascending XOR distance to
    /// the given ID.
    pub fn find(&self, id: &TId, count: usize) -> (r: Vec<Node<TId, TAddr>>)
        requires
            self.wf(),
        ensures
            r@.len() == vstd::math::min(count as int, self.view_nodes().len() as int),
            sorted_by_dist::<TId, TAddr>(id.deep_view(), views_of(r@)),
            views_of(r@).to_multiset().subset_of(self.view_nodes().to_multiset()),
            forall|x: (<TId as DeepView>::V, <TAddr as DeepView>::V)|
                self.view_nodes().to_multiset().contains(x) && !views_of(r@).to_multiset().contains(
                    x,
                ) ==> forall|i: int|
                    0 <= i < r@.len() ==> dist_le::<TId>(
                        id.deep_view(),
                        #[trigger] views_of(r@)[i].0,
                        x.0,
                    ),
    {
        let copied = duplicate_all(&self.data);
        closest_of(copied, id, count)
    }
}

/// An owned copy of a node sequence, denoting the same nodes.
fn duplicate_all<TId: GenericId, TAddr: GenericAddr>(v: &Vec<Node<TId, TAddr>>) -> (r: Vec<
    Node<TId, TAddr>,
>)
    ensures
        views_of(r@) == views_of(v@),
{
    let mut r: Vec<Node<TId, TAddr>> = Vec::new();
    let mut i: usize = 0;
    while i < v.len()
        invariant
            i <= v@.len(),
            r@.len() == i,
            views_of(r@) =~= views_of(v@).take(i as int),
        decreases v@.len() - i,
    {
        let ghost rpre = r@;
        let n = &v[i];
        r.push(n.duplicate());
        proof {
            assert forall|idx: int| 0 <= idx < r@.len() implies views_of(r@)[idx] == views_of(
                v@,
            ).take(i as int + 1)[idx] by {
                if idx < i {
                    assert(r@[idx] == rpre[idx]);
                    assert(views_of(rpre)[idx] == views_of(v@).take(i as int)[idx]);
                }
            }
            assert(views_of(r@) =~= views_of(v@).take(i as int + 1));
        }
        i = i + 1;
    }
    proof {
        assert(views_of(v@).take(v@.len() as int) =~= views_of(v@));
    }
    r
}

/// Index at which `node` is inserted into `out` to keep it sorted by
/// distance to `target`, placing it after any node at equal distance.
fn insertion_point<TId: GenericId, TAddr: GenericAddr>(
    out: &Vec<Node<TId, TAddr>>,
    target: &TId,
    node: &Node<TId, TAddr>,
) -> (k: usize)
    ensures
        k <= out@.len(),
        forall|i: int|
            0 <= i < k ==> dist_le::<TId>(
                target.deep_view(),
                #[trigger] views_of(out@)[i].0,
                node.id.deep_view(),
            ),
        k < out@.len() ==> !dist_le::<TId>(
            target.deep_view(),
            views_of(out@)[k as int].0,
            node.id.deep_view(),
        ),
{
    let d_node = target.bitxor(&node.id);
    let mut k: usize = 0;
    while k < out.len()
        invariant_except_break
            k <= out@.len(),
            d_node.deep_view() == TId::xor_v(target.deep_view(), node.id.deep_view()),
            forall|i: int|
                0 <= i < k ==> dist_le::<TId>(
                    target.deep_view(),
                    #[trigger] views_of(out@)[i].0,
                    node.id.deep_view(),
                ),
        ensures
            k <= out@.len(),
            forall|i: int|
                0 <= i < k ==> dist_le::<TId>(
                    target.deep_view(),
                    #[trigger] views_of(out@)[i].0,
                    node.id.deep_view(),
                ),
            k < out@.len() ==> !dist_le::<TId>(
                target.deep_view(),
                views_of(out@)[k as int].0,
                node.id.deep_view(),
            ),
        decreases out@.len() - k,
    {
        let cand = &out[k];
        let d_cand = target.bitxor(&cand.id);
        if d_cand.le(&d_node) {
            k = k + 1;
        } else {
            break ;
        }
    }
    k
}

/// Insert a node into a distance-sorted sequence, keeping it sorted.
fn sorted_insert<TId: GenericId, TAddr: GenericAddr>(
    out: &mut Vec<Node<TId, TAddr>>,
    node: Node<TId, TAddr>,
    target: &TId,
)
    requires
        sorted_by_dist::<TId, TAddr>(target.deep_view(), views_of(old(out)@)),
    ensures
        final(out)@.len() == old(out)@.len() + 1,
        sorted_by_dist::<TId, TAddr>(target.deep_view(), views_of(final(out)@)),
        views_of(final(out)@).to_multiset() == views_of(old(out)@).to_multiset().insert(
            node_view(node),
        ),
{
    let ghost pre = out@;
    let ghost tv = target.deep_view();
    let k = insertion_point(out, target, &node);
    let ghost nv = node_view(node);
    out.insert(k, node);
    proof {
        assert(views_of(out@) =~= views_of(pre).insert(k as int, nv));
        let s = views_of(out@);
        let p = views_of(pre);
        p.insert_ensures(k as int, nv);
        assert forall|a: int, b: int| 0 <= a <= b < s.len() implies dist_le::<TId>(
            tv,
            s[a].0,
            s[b].0,
        ) by {
            TId::lemma_le_total(TId::xor_v(tv, s[a].0), TId::xor_v(tv, s[b].0));
            if a == k && b > k {
                // the inserted node against a suffix element: the element
                // at the insertion point is past the node, and the suffix
                // is sorted above it
                assert(s[a] == nv);
                assert(s[b] == p[b - 1]);
                assert(dist_le::<TId>(tv, p[k as int].0, p[b - 1].0));
                TId::lemma_le_total(TId::xor_v(tv, p[k as int].0), TId::xor_v(tv, nv.0));
                TId::lemma_le_trans(
                    TId::xor_v(tv, nv.0),
                    TId::xor_v(tv, p[k as int].0),
                    TId::xor_v(tv, p[b - 1].0),
                );
            } else if a < k && b == k {
                assert(s[a] == p[a]);
                assert(s[b] == nv);
            } else if a < k && b > k {
                assert(s[a] == p[a]);
                assert(s[b] == p[b - 1]);
            } else if a > k || b < k {
                assert(a != k && b != k ==> s[a] == (if a < k { p[a] } else { p[a - 1] })
                    && s[b] == (if b < k { p[b] } else { p[b - 1] }));
            }
        }
        broadcast use group_to_multiset_ensures;

        assert(views_of(pre).insert(k as int, nv).to_multiset() =~= views_of(
            pre,
        ).to_multiset().insert(nv));
    }
}

/// Up to `count` of the given nodes, ordered by ascending XOR distance
/// to `target`; the nodes left out are all at least as far as any node
/// returned.
fn closest_of<TId: GenericId, TAddr: GenericAddr>(
    v: Vec<Node<TId, TAddr>>,
    target: &TId,
    count: usize,
) -> (r: Vec<Node<TId, TAddr>>)
    ensures
        r@.len() == vstd::math::min(count as int, v@.len() as int),
        sorted_by_dist::<TId, TAddr>(target.deep_view(), views_of(r@)),
        views_of(r@).to_multiset().subset_of(views_of(v@).to_multiset()),
        forall|x: (<TId as DeepView>::V, <TAddr as DeepView>::V)|
            views_of(v@).to_multiset().contains(x) && !views_of(r@).to_multiset().contains(x)
                ==> forall|i: int|
                0 <= i < r@.len() ==> dist_le::<TId>(
                    target.deep_view(),
                    #[trigger] views_of(r@)[i].0,
                    x.0,
                ),
{
    let ghost tv = target.deep_view();
    let ghost allv = views_of(v@);
    let mut rest = v;
    let mut sorted: Vec<Node<TId, TAddr>> = Vec::new();
    proof {
        assert(views_of(sorted@) =~= Seq::empty());
        assert(views_of(rest@).to_multiset().add(views_of(sorted@).to_multiset()) =~= allv.to_multiset()) by {
            broadcast use group_to_multiset_ensures;

            assert(views_of(sorted@).to_multiset() =~= Multiset::empty());
        }
    }
    while rest.len() > 0
        invariant
            sorted_by_dist::<TId, TAddr>(tv, views_of(sorted@)),
            tv == target.deep_view(),
            views_of(rest@).to_multiset().add(views_of(sorted@).to_multiset())
                == allv.to_multiset(),
            sorted@.len() + rest@.len() == allv.len(),
        decreases rest@.len(),
    {
        let ghost rpre = rest@;
        let n = rest.pop().unwrap();
        proof {
            broadcast use group_to_multiset_ensures;

            assert(rpre.drop_last().push(rpre.last()) =~= rpre);
            assert(views_of(rpre.drop_last()).push(node_view(rpre.last())) =~= views_of(rpre));
            assert(views_of(rpre).to_multiset() =~= views_of(rpre.drop_last()).to_multiset().insert(
                node_view(rpre.last()),
            ));
            assert(views_of(rest@) =~= views_of(rpre.drop_last()));
        }
        sorted_insert(&mut sorted, n, target);
        proof {
            broadcast use group_to_multiset_ensures;

            assert(views_of(rest@).to_multiset().add(views_of(sorted@).to_multiset())
                =~= allv.to_multiset());
        }
    }
    proof {
        broadcast use group_to_multiset_ensures;

        assert(views_of(rest@).to_multiset() =~= Multiset::empty()) by {
            assert(views_of(rest@) =~= Seq::empty());
        }
        assert(views_of(sorted@).to_multiset() =~= allv.to_multiset());
        assert(views_of(sorted@).to_multiset().len() == allv.to_multiset().len());
        assert(sorted@.len() == allv.len());
    }
    // keep at most `count` nearest
    let ghost full = sorted@;
    let n_keep: usize = if count < sorted.len() {
        count
    } else {
        sorted.len()
    };
    sorted.truncate(n_keep);
    proof {
        broadcast use group_to_multiset_ensures;

        assert(sorted@ =~= full.take(n_keep as int));
        assert(views_of(sorted@) =~= views_of(full).take(n_keep as int));
        lemma_take_multisets(views_of(full), n_keep as int);
        assert forall|x: (<TId as DeepView>::V, <TAddr as DeepView>::V)|
            allv.to_multiset().contains(x) && !views_of(sorted@).to_multiset().contains(x)
                implies forall|i: int|
            0 <= i < sorted@.len() ==> dist_le::<TId>(
                tv,
                #[trigger] views_of(sorted@)[i].0,
                x.0,
            ) by {
            // every occurrence of x sits in the dropped tail of the full
            // sorted sequence, above each kept element
            assert(views_of(full).to_multiset().contains(x));
            assert(views_of(full).contains(x));
            let j = choose|j: int| 0 <= j < views_of(full).len() && views_of(full)[j] == x;
            assert(views_of(full).take(n_keep as int).to_multiset().contains(x) || j >= n_keep)
                by {
                if j < n_keep {
                    assert(views_of(full).take(n_keep as int)[j] == x);
                    assert(views_of(full).take(n_keep as int).contains(x));
                }
            }
            assert(j >= n_keep);
            assert forall|i: int| 0 <= i < sorted@.len() implies dist_le::<TId>(
                tv,
                #[trigger] views_of(sorted@)[i].0,
                x.0,
            ) by {
                assert(views_of(sorted@)[i] == views_of(full)[i]);
                assert(dist_le::<TId>(tv, views_of(full)[i].0, views_of(full)[j].0));
            }
        }
    }
    sorted
}

/// Abstract values of all nodes stored in a sequence of buckets, in
/// bucket order.
pub open spec fn nodes_of_buckets<TId: GenericId, TAddr: GenericAddr>(
    bs: Seq<KBucket<TId, TAddr>>,
) -> Seq<(<TId as DeepView>::V, <TAddr as DeepView>::V)>
    decreases bs.len(),
{
    if bs.len() == 0 {
        Seq::empty()
    } else {
        nodes_of_buckets(bs.drop_last()) + bs.last().view_nodes()
    }
}

/// Gathering one more bucket extends the gathered nodes by that bucket's.
proof fn lemma_nodes_take_step<TId: GenericId, TAddr: GenericAddr>(
    bs: Seq<KBucket<TId, TAddr>>,
    i: int,
)
    requires
        0 <= i < bs.len(),
    ensures
        nodes_of_buckets(bs.take(i + 1)) == nodes_of_buckets(bs.take(i)) + bs[i].view_nodes(),
{
    assert(bs.take(i + 1).drop_last() =~= bs.take(i));
    assert(bs.take(i + 1).last() == bs[i]);
}

/// The nodes of the table split around any one bucket.
proof fn lemma_nodes_split<TId: GenericId, TAddr: GenericAddr>(
    bs: Seq<KBucket<TId, TAddr>>,
    k: int,
)
    requires
        0 <= k < bs.len(),
    ensures
        nodes_of_buckets(bs) == nodes_of_buckets(bs.take(k)) + bs[k].view_nodes()
            + nodes_of_buckets(bs.skip(k + 1)),
    decreases bs.len(),
{
    if k == bs.len() - 1 {
        assert(bs.take(k) =~= bs.drop_last());
        assert(bs.skip(k + 1).len() == 0);
        assert(nodes_of_buckets(bs) =~= nodes_of_buckets(bs.take(k)) + bs[k].view_nodes()
            + nodes_of_buckets(bs.skip(k + 1)));
    } else {
        lemma_nodes_split(bs.drop_last(), k);
        assert(bs.drop_last().take(k) =~= bs.take(k));
        assert(bs.drop_last()[k] == bs[k]);
        assert(bs.drop_last().skip(k + 1) =~= bs.skip(k + 1).drop_last());
        assert(bs.skip(k + 1).last() == bs.last());
        assert(nodes_of_buckets(bs) =~= nodes_of_buckets(bs.take(k)) + bs[k].view_nodes()
            + nodes_of_buckets(bs.skip(k + 1)));
    }
}

/// Popping the head of every full bucket removes exactly those nodes:
/// the remaining nodes and the popped heads together are the nodes the
/// table held before.
proof fn lemma_pop_multiset<TId: GenericId, TAddr: GenericAddr>(
    pre: KNodeTable<TId, TAddr>,
    post: KNodeTable<TId, TAddr>,
    k: int,
)
    requires
        pre.bucket_count() == post.bucket_count(),
        0 <= k <= pre.bucket_count(),
        forall|b: int|
            0 <= b < pre.bucket_count() ==> (pre.bucket_is_full(b) ==> #[trigger] post.bucket_view(
                b,
            ) == pre.bucket_view(b).drop_first()) && (!pre.bucket_is_full(b) ==> post.bucket_view(
                b,
            ) == pre.bucket_view(b)),
    ensures
        nodes_of_buckets(post.buckets@.take(k)).to_multiset().add(
            pre.popped_up_to(k).to_multiset(),
        ) == nodes_of_buckets(pre.buckets@.take(k)).to_multiset(),
    decreases k,
{
    broadcast use group_to_multiset_ensures;
    broadcast use vstd::multiset::group_multiset_axioms;

    if k == 0 {
        assert(post.buckets@.take(0) =~= Seq::empty());
        assert(pre.buckets@.take(0) =~= Seq::empty());
        assert(nodes_of_buckets(post.buckets@.take(0)).to_multiset().add(
            pre.popped_up_to(0).to_multiset(),
        ) =~= nodes_of_buckets(pre.buckets@.take(0)).to_multiset());
    } else {
        lemma_pop_multiset(pre, post, k - 1);
        lemma_nodes_take_step(pre.buckets@, k - 1);
        lemma_nodes_take_step(post.buckets@, k - 1);
        let pn = nodes_of_buckets(pre.buckets@.take(k - 1));
        let qn = nodes_of_buckets(post.buckets@.take(k - 1));
        let pv = pre.bucket_view(k - 1);
        let qv = post.bucket_view(k - 1);
        let pp = pre.popped_up_to(k - 1);
        lemma_multiset_commutative(qn, qv);
        lemma_multiset_commutative(pn, pv);
        if pre.bucket_is_full(k - 1) {
            let head = seq![pv[0]];
            lemma_multiset_commutative(pp, head);
            assert(pv =~= head + qv);
            lemma_multiset_commutative(head, qv);
            assert(head.to_multiset() =~= Multiset::empty().insert(pv[0])) by {
                assert(head =~= Seq::empty().push(pv[0]));
            }
            assert(nodes_of_buckets(post.buckets@.take(k)).to_multiset().add(
                pre.popped_up_to(k).to_multiset(),
            ) =~= nodes_of_buckets(pre.buckets@.take(k)).to_multiset());
        } else {
            assert(pre.popped_up_to(k) == pp + Seq::empty());
            lemma_multiset_commutative(pp, Seq::empty());
            assert(Seq::<(<TId as DeepView>::V, <TAddr as DeepView>::V)>::empty().to_multiset()
                =~= Multiset::empty());
            assert(nodes_of_buckets(post.buckets@.take(k)).to_multiset().add(
                pre.popped_up_to(k).to_multiset(),
            ) =~= nodes_of_buckets(pre.buckets@.take(k)).to_multiset());
        }
    }
}

/// A node value stored in some bucket is among the nodes of the table.
proof fn lemma_nodes_contains<TId: GenericId, TAddr: GenericAddr>(
    bs: Seq<KBucket<TId, TAddr>>,
    b: int,
    x: (<TId as DeepView>::V, <TAddr as DeepView>::V),
)
    requires
        0 <= b < bs.len(),
        bs[b].view_nodes().contains(x),
    ensures
        nodes_of_buckets(bs).contains(x),
    decreases bs.len(),
{
    let left = nodes_of_buckets(bs.drop_last());
    let right = bs.last().view_nodes();
    if b == bs.len() - 1 {
        let j = choose|j: int| 0 <= j < right.len() && right[j] == x;
        assert(nodes_of_buckets(bs)[left.len() + j] == x);
    } else {
        lemma_nodes_contains(bs.drop_last(), b, x);
        let j = choose|j: int| 0 <= j < left.len() && left[j] == x;
        assert(nodes_of_buckets(bs)[j] == x);
    }
}

/// Every node of the table is stored in some bucket.
proof fn lemma_nodes_member<TId: GenericId, TAddr: GenericAddr>(
    bs: Seq<KBucket<TId, TAddr>>,
    x: (<TId as DeepView>::V, <TAddr as DeepView>::V),
)
    requires
        nodes_of_buckets(bs).contains(x),
    ensures
        exists|b: int| 0 <= b < bs.len() && (#[trigger] bs[b].view_nodes()).contains(x),
    decreases bs.len(),
{
    let left = nodes_of_buckets(bs.drop_last());
    let right = bs.last().view_nodes();
    let j = choose|j: int| 0 <= j < nodes_of_buckets(bs).len() && nodes_of_buckets(bs)[j] == x;
    if j < left.len() {
        assert(left[j] == x);
        lemma_nodes_member(bs.drop_last(), x);
        let b = choose|b: int|
            0 <= b < bs.drop_last().len() && (#[trigger] bs.drop_last()[b].view_nodes()).contains(
                x,
            );
        assert(bs[b].view_nodes().contains(x));
    } else {
        assert(right[j - left.len()] == x);
        assert(bs[bs.len() - 1].view_nodes().contains(x));
    }
}

/// Tables whose buckets hold the same node values hold the same nodes.
proof fn lemma_nodes_congruence<TId: GenericId, TAddr: GenericAddr>(
    bs1: Seq<KBucket<TId, TAddr>>,
    bs2: Seq<KBucket<TId, TAddr>>,
)
    requires
        bs1.len() == bs2.len(),
        forall|b: int|
            0 <= b < bs1.len() ==> (#[trigger] bs1[b].view_nodes()) == bs2[b].view_nodes(),
    ensures
        nodes_of_buckets(bs1) == nodes_of_buckets(bs2),
    decreases bs1.len(),
{
    if bs1.len() > 0 {
        assert forall|b: int|
            0 <= b < bs1.drop_last().len() implies (#[trigger] bs1.drop_last()[b].view_nodes())
            == bs2.drop_last()[b].view_nodes() by {
            assert(bs1[b].view_nodes() == bs2[b].view_nodes());
        }
        lemma_nodes_congruence(bs1.drop_last(), bs2.drop_last());
        assert(bs1.last().view_nodes() == bs2.last().view_nodes());
    }
}

/// A table of empty buckets holds no nodes.
proof fn lemma_nodes_empty<TId: GenericId, TAddr: GenericAddr>(bs: Seq<KBucket<TId, TAddr>>)
    requires
        forall|b: int| 0 <= b < bs.len() ==> (#[trigger] bs[b].view_nodes()).len() == 0,
    ensures
        nodes_of_buckets(bs) == Seq::<(<TId as DeepView>::V, <TAddr as DeepView>::V)>::empty(),
    decreases bs.len(),
{
    if bs.len() > 0 {
        lemma_nodes_empty(bs.drop_last());
        assert(bs.last().view_nodes().len() == 0);
        assert(nodes_of_buckets(bs) =~= Seq::<
            (<TId as DeepView>::V, <TAddr as DeepView>::V),
        >::empty());
    }
}

/// XOR distance between two identifiers.
fn distance<TId: GenericId>(id1: &TId, id2: &TId) -> (r: TId)
    ensures
        r.deep_view() == TId::xor_v(id1.deep_view(), id2.deep_view()),
{
    id1.bitxor(id2)
}

/// Kademlia node table.
///
/// Keeps nodes in a number of k-buckets (one per bit of the identifier
/// space), where the N-th bucket holds nodes whose XOR distance from the
/// local identifier is between 2^N and 2^(N+1).
pub struct KNodeTable<TId, TAddr> {
    this_id: TId,
    hash_size: usize,
    buckets: Vec<KBucket<TId, TAddr>>,
}

impl<TId: GenericId, TAddr: GenericAddr> KNodeTable<TId, TAddr> {
    /// Abstract value of the local identifier.
    pub closed spec fn this_id_v(&self) -> <TId as DeepView>::V {
        self.this_id.deep_view()
    }

    /// Size in bits of the identifier space.
    pub closed spec fn spec_hash_size(&self) -> usize {
        self.hash_size
    }

    /// Number of buckets.
    pub closed spec fn bucket_count(&self) -> int {
        self.buckets@.len() as int
    }

    /// Node values of the bucket at the given index, oldest first.
    pub closed spec fn bucket_view(&self, b: int) -> Seq<
        (<TId as DeepView>::V, <TAddr as DeepView>::V),
    > {
        self.buckets@[b].view_nodes()
    }

    /// Capacity of the bucket at the given index.
    pub closed spec fn bucket_cap(&self, b: int) -> usize {
        self.buckets@[b].capacity()
    }

    /// Whether the bucket at the given index is non-empty and at capacity.
    pub open spec fn bucket_is_full(&self, b: int) -> bool {
        self.bucket_view(b).len() >= 1 && self.bucket_view(b).len() == self.bucket_cap(b)
    }

    /// The oldest node value of every full bucket among the first `b`,
    /// in bucket order.
    pub open spec fn popped_up_to(&self, b: int) -> Seq<
        (<TId as DeepView>::V, <TAddr as DeepView>::V),
    >
        decreases b,
    {
        if b <= 0 {
            Seq::empty()
        } else {
            self.popped_up_to(b - 1) + (if self.bucket_is_full(b - 1) {
                seq![self.bucket_view(b - 1)[0]]
            } else {
                Seq::empty()
            })
        }
    }

    /// Whether the bucket at index `b` stores the given identifier value.
    pub closed spec fn bucket_has(&self, b: int, id: <TId as DeepView>::V) -> bool {
        self.buckets@[b].has_id(id)
    }

    /// The bucket index an identifier value is routed to.
    pub open spec fn bucket_index_of(&self, v: <TId as DeepView>::V) -> int {
        TId::bits_v(TId::xor_v(self.this_id_v(), v)) - 1
    }

    /// Whether an identifier value belongs to the bucket at index `b`.
    pub open spec fn routed(&self, v: <TId as DeepView>::V, b: int) -> bool {
        &&& TId::width_v(v) == TId::width_v(self.this_id_v())
        &&& !TId::is_zero_v(TId::xor_v(self.this_id_v(), v))
        &&& TId::bits_v(TId::xor_v(self.this_id_v(), v)) == b + 1
    }

    /// Create a new node table with default bucket capacity and
    /// identifier-space size.
    ///
    /// `this_id` is the ID of the current node, used to calculate metrics.
    pub fn new(this_id: TId) -> (r: KNodeTable<TId, TAddr>)
        requires
            TId::gen_ok(DEFAULT_HASH_SIZE),
            TId::width_v(this_id.deep_view()) <= usize::MAX,
        ensures
            r.wf(),
            r.this_id_v() == this_id.deep_view(),
            r.spec_hash_size() == DEFAULT_HASH_SIZE,
            r.nodes() == Seq::<(<TId as DeepView>::V, <TAddr as DeepView>::V)>::empty(),
            r.bucket_count() == DEFAULT_HASH_SIZE,
            forall|b: int|
                0 <= b < r.bucket_count() ==> (#[trigger] r.bucket_view(b)).len() == 0
                    && r.bucket_cap(b) == BUCKET_SIZE,
    {
        KNodeTable::new_with_details(this_id, BUCKET_SIZE, DEFAULT_HASH_SIZE)
    }

    /// Create a new node table with the given bucket capacity and
    /// identifier-space size.
    pub fn new_with_details(this_id: TId, bucket_size: usize, hash_size: usize) -> (r: KNodeTable<
        TId,
        TAddr,
    >)
        requires
            bucket_size >= 1,
            hash_size >= 1,
            TId::gen_ok(hash_size),
            TId::width_v(this_id.deep_view()) <= usize::MAX,
        ensures
            r.wf(),
            r.this_id_v() == this_id.deep_view(),
            r.spec_hash_size() == hash_size,
            r.nodes() == Seq::<(<TId as DeepView>::V, <TAddr as DeepView>::V)>::empty(),
            r.bucket_count() == hash_size,
            forall|b: int|
                0 <= b < r.bucket_count() ==> (#[trigger] r.bucket_view(b)).len() == 0
                    && r.bucket_cap(b) == bucket_size,
    {
        let mut buckets: Vec<KBucket<TId, TAddr>> = Vec::new();
        let mut i: usize = 0;
        while i < hash_size
            invariant
                i <= hash_size,
                bucket_size >= 1,
                buckets@.len() == i,
                forall|b: int|
                    0 <= b < i ==> (#[trigger] buckets@[b]).wf() && buckets@[b].view_nodes().len()
                        == 0 && buckets@[b].capacity() == bucket_size,
            decreases hash_size - i,
        {
            buckets.push(KBucket::new(bucket_size));
            i = i + 1;
        }
        let r = KNodeTable { this_id, hash_size, buckets };
        proof {
            lemma_nodes_empty(r.buckets@);
        }
        r
    }

    /// The buckets of the table, in routing order.
    pub fn buckets(&self) -> (r: &Vec<KBucket<TId, TAddr>>)
        ensures
            r@.len() == self.bucket_count(),
            forall|b: int|
                0 <= b < r@.len() ==> (#[trigger] r@[b]).view_nodes() == self.bucket_view(b),
    {
        &self.buckets
    }

    /// The bucket index the given identifier is routed to.
    ///
    /// A well-configured deployment never asks about identifiers whose
    /// distance is wider than the identifier space, nor about the local
    /// identifier itself: both are excluded by the precondition.
    pub fn bucket_number(&self, id: &TId) -> (r: usize)
        requires
            self.wf(),
            self.accepts(id.deep_view()),
        ensures
            r == self.bucket_index_of(id.deep_view()),
            r < self.spec_hash_size(),
    {
        let diff = distance(&self.this_id, id);
        proof {
            TId::lemma_xor_width(self.this_id.deep_view(), id.deep_view());
            TId::lemma_bits_range(diff.deep_view());
        }
        let b = diff.bits();
        b - 1
    }

    /// Remove the node with the given identifier; report whether one was
    /// removed.
    pub fn remove(&mut self, id: &TId) -> (r: bool)
        requires
            old(self).wf(),
            old(self).accepts(id.deep_view()),
        ensures
            final(self).wf(),
            final(self).this_id_v() == old(self).this_id_v(),
            final(self).spec_hash_size() == old(self).spec_hash_size(),
            final(self).bucket_count() == old(self).bucket_count(),
            forall|x: <TId as DeepView>::V| final(self).accepts(x) == old(self).accepts(x),
            forall|b: int|
                0 <= b < old(self).bucket_count() && b != old(self).bucket_index_of(
                    id.deep_view(),
                ) ==> #[trigger] final(self).bucket_view(b) == old(self).bucket_view(b)
                    && final(self).bucket_cap(b) == old(self).bucket_cap(b),
            r == old(self).bucket_has(
                old(self).bucket_index_of(id.deep_view()),
                id.deep_view(),
            ),
            r ==> (exists|j: int|
                0 <= j < old(self).bucket_view(old(self).bucket_index_of(id.deep_view())).len()
                    && (#[trigger] old(self).bucket_view(
                    old(self).bucket_index_of(id.deep_view()),
                )[j]).0 == id.deep_view() && final(self).bucket_view(
                    old(self).bucket_index_of(id.deep_view()),
                ) == old(self).bucket_view(old(self).bucket_index_of(id.deep_view())).remove(j)),
            !r ==> final(self).nodes() == old(self).nodes(),
    {
        let ghost pre = *self;
        let bnum = self.bucket_number(id);
        let mut bucket = self.buckets.remove(bnum);
        let r = bucket.remove(id);
        self.buckets.insert(bnum, bucket);
        proof {
            assert(self.buckets@ =~= pre.buckets@.update(bnum as int, self.buckets@[bnum as int]));
            let b2 = self.buckets@[bnum as int];
            let bv = pre.buckets@[bnum as int].view_nodes();
            if r {
                let j = choose|j: int|
                    0 <= j < bv.len() && bv[j].0 == id.deep_view() && b2.view_nodes() == bv.remove(
                        j,
                    );
                bv.remove_ensures(j);
                assert(0 <= j < pre.bucket_view(bnum as int).len() && (#[trigger] pre.bucket_view(
                    bnum as int,
                )[j]).0 == id.deep_view() && final(self).bucket_view(bnum as int)
                    == pre.bucket_view(bnum as int).remove(j));
            }
            assert(final(self).wf() && (!r ==> final(self).nodes() == old(self).nodes())) by {
                self.lemma_after_bucket_change(pre, bnum as int);
            }
        }
        r
    }

    /// A node value is among the table's nodes exactly when some bucket
    /// holds it.
    pub proof fn lemma_nodes_membership(&self, x: (<TId as DeepView>::V, <TAddr as DeepView>::V))
        ensures
            self.nodes().contains(x) <==> (exists|b: int|
                0 <= b < self.bucket_count() && (#[trigger] self.bucket_view(b)).contains(x)),
    {
        if self.nodes().contains(x) {
            lemma_nodes_member(self.buckets@, x);
            let b = choose|b: int|
                0 <= b < self.buckets@.len() && (#[trigger] self.buckets@[b].view_nodes()).contains(
                    x,
                );
            assert(self.bucket_view(b).contains(x));
        }
        if exists|b: int| 0 <= b < self.bucket_count() && (#[trigger] self.bucket_view(
            b,
        )).contains(x) {
            let b = choose|b: int|
                0 <= b < self.bucket_count() && (#[trigger] self.bucket_view(b)).contains(x);
            lemma_nodes_contains(self.buckets@, b, x);
        }
    }

    /// A bucket holds an identifier exactly when one of its node values
    /// carries it.
    pub proof fn lemma_bucket_has(&self, b: int, id: <TId as DeepView>::V)
        ensures
            self.bucket_has(b, id) <==> (exists|j: int|
                0 <= j < self.bucket_view(b).len() && (#[trigger] self.bucket_view(b)[j]).0 == id),
    {
        if self.bucket_has(b, id) {
            let j = choose|j: int|
                0 <= j < self.buckets@[b].view_nodes().len() && self.buckets@[b].view_nodes()[j].0
                    == id;
            assert(0 <= j < self.bucket_view(b).len() && (#[trigger] self.bucket_view(b)[j]).0
                == id);
        }
        if exists|j: int| 0 <= j < self.bucket_view(b).len() && (#[trigger] self.bucket_view(
            b,
        )[j]).0 == id {
            let j = choose|j: int|
                0 <= j < self.bucket_view(b).len() && (#[trigger] self.bucket_view(b)[j]).0 == id;
            assert(self.buckets@[b].has_id(id));
        }
    }

    /// After replacing one bucket with one holding a subset of its node
    /// values, the table invariant is preserved, and if the bucket's
    /// values are unchanged so are the table's nodes.
    proof fn lemma_after_bucket_change(&self, pre: KNodeTable<TId, TAddr>, bnum: int)
        requires
            pre.wf(),
            0 <= bnum < pre.bucket_count(),
            self.this_id == pre.this_id,
            self.hash_size == pre.hash_size,
            self.buckets@.len() == pre.buckets@.len(),
            forall|b: int|
                0 <= b < pre.buckets@.len() && b != bnum ==> self.buckets@[b] == pre.buckets@[b],
            self.buckets@[bnum].wf(),
            self.buckets@[bnum].capacity() == pre.buckets@[bnum].capacity(),
            forall|q: int|
                0 <= q < self.buckets@[bnum].view_nodes().len() ==> pre.buckets@[bnum].has_id(
                    (#[trigger] self.buckets@[bnum].view_nodes()[q]).0,
                ),
        ensures
            self.wf(),
            self.buckets@[bnum].view_nodes() == pre.buckets@[bnum].view_nodes() ==> self.nodes()
                == pre.nodes(),
    {
        assert forall|b: int, j: int|
            0 <= b < self.bucket_count() && 0 <= j < self.bucket_view(b).len() implies self.routed(
            (#[trigger] self.bucket_view(b)[j]).0,
            b,
        ) by {
            if b == bnum {
                let v = self.bucket_view(b)[j].0;
                assert(pre.buckets@[bnum].has_id(v));
                let q = choose|q: int|
                    0 <= q < pre.bucket_view(bnum).len() && pre.bucket_view(bnum)[q].0 == v;
                assert(pre.routed(pre.bucket_view(bnum)[q].0, bnum));
            } else {
                assert(pre.routed(pre.bucket_view(b)[j].0, b));
            }
        }
        if self.buckets@[bnum].view_nodes() == pre.buckets@[bnum].view_nodes() {
            lemma_nodes_congruence(self.buckets@, pre.buckets@);
        }
    }
}

impl<TId: GenericId, TAddr: GenericAddr> GenericNodeTable<TId, TAddr> for KNodeTable<
    TId,
    TAddr,
> {
    closed spec fn wf(&self) -> bool {
        &&& self.buckets@.len() == self.hash_size
        &&& self.hash_size >= 1
        &&& TId::gen_ok(self.hash_size)
        &&& TId::width_v(self.this_id.deep_view()) <= usize::MAX
        &&& forall|b: int| 0 <= b < self.buckets@.len() ==> (#[trigger] self.buckets@[b]).wf()
        &&& forall|b: int, j: int|
            0 <= b < self.bucket_count() && 0 <= j < self.bucket_view(b).len() ==> self.routed(
                (#[trigger] self.bucket_view(b)[j]).0,
                b,
            )
    }

    closed spec fn nodes(&self) -> Seq<(<TId as DeepView>::V, <TAddr as DeepView>::V)> {
        nodes_of_buckets(self.buckets@)
    }

    open spec fn accepts(&self, id: <TId as DeepView>::V) -> bool {
        &&& TId::width_v(id) == TId::width_v(self.this_id_v())
        &&& !TId::is_zero_v(TId::xor_v(self.this_id_v(), id))
        &&& TId::bits_v(TId::xor_v(self.this_id_v(), id)) <= self.spec_hash_size()
    }

    open spec fn can_update(&self, node: (<TId as DeepView>::V, <TAddr as DeepView>::V)) -> bool {
        let b = self.bucket_index_of(node.0);
        self.bucket_has(b, node.0) || self.bucket_view(b).len() < self.bucket_cap(b)
    }

    open spec fn pop_candidates(&self) -> Seq<(<TId as DeepView>::V, <TAddr as DeepView>::V)> {
        self.popped_up_to(self.bucket_count())
    }

    /// Delegates to the identifier's random generation, using the
    /// configured identifier-space size.
    fn random_id(&self) -> (r: TId)
        ensures
            TId::bits_v(r.deep_view()) <= self.spec_hash_size(),
            TId::width_v(r.deep_view()) == TId::gen_width(self.spec_hash_size()),
    {
        TId::gen(self.hash_size)
    }

    fn update(&mut self, node: &Node<TId, TAddr>) -> (r: bool)
        ensures
            final(self).this_id_v() == old(self).this_id_v(),
            final(self).spec_hash_size() == old(self).spec_hash_size(),
            final(self).bucket_count() == old(self).bucket_count(),
            forall|b: int|
                0 <= b < old(self).bucket_count() && b != old(self).bucket_index_of(
                    node.id.deep_view(),
                ) ==> #[trigger] final(self).bucket_view(b) == old(self).bucket_view(b)
                    && final(self).bucket_cap(b) == old(self).bucket_cap(b),
            final(self).bucket_cap(old(self).bucket_index_of(node.id.deep_view())) == old(
                self,
            ).bucket_cap(old(self).bucket_index_of(node.id.deep_view())),
            ({
                let bi = old(self).bucket_index_of(node.id.deep_view());
                let nv = node_view(*node);
                let bold = old(self).bucket_view(bi);
                let bnew = final(self).bucket_view(bi);
                let cap = old(self).bucket_cap(bi);
                &&& (old(self).bucket_has(bi, nv.0) ==> r && (exists|j: int|
                    0 <= j < bold.len() && (#[trigger] bold[j]).0 == nv.0 && bnew == bold.remove(
                        j,
                    ).push(nv)))
                &&& (!old(self).bucket_has(bi, nv.0) && bold.len() < cap ==> r && bnew
                    == bold.push(nv))
                &&& (!old(self).bucket_has(bi, nv.0) && bold.len() == cap ==> !r && bnew == bold)
            }),
    {
        let ghost pre = *self;
        let ghost nv = node_view(*node);
        let bnum = self.bucket_number(&node.id);
        let mut bucket = self.buckets.remove(bnum);
        let ghost bpre = bucket;
        let r = bucket.update(node);
        self.buckets.insert(bnum, bucket);
        proof {
            assert(self.buckets@ =~= pre.buckets@.update(bnum as int, self.buckets@[bnum as int]));
            let b2 = self.buckets@[bnum as int];
            assert forall|q: int|
                0 <= q < b2.view_nodes().len() implies bpre.has_id(
                (#[trigger] b2.view_nodes()[q]).0,
            ) || b2.view_nodes()[q].0 == node.id.deep_view() by {}
            assert(final(self).wf()) by {
                assert forall|b: int, j: int|
                    0 <= b < self.bucket_count() && 0 <= j < self.bucket_view(b).len()
                    implies self.routed((#[trigger] self.bucket_view(b)[j]).0, b) by {
                    if b == bnum {
                        let v = self.bucket_view(b)[j].0;
                        if bpre.has_id(v) {
                            let q = choose|q: int|
                                0 <= q < pre.bucket_view(bnum as int).len() && pre.bucket_view(
                                    bnum as int,
                                )[q].0 == v;
                            assert(pre.routed(pre.bucket_view(bnum as int)[q].0, bnum as int));
                        } else {
                            assert(v == node.id.deep_view());
                        }
                    } else {
                        assert(pre.routed(pre.bucket_view(b)[j].0, b));
                    }
                }
            }
            if r {
                assert(b2.view_nodes().last() == nv);
                assert(b2.view_nodes().contains(nv));
                lemma_nodes_contains(self.buckets@, bnum as int, nv);
                lemma_nodes_split(pre.buckets@, bnum as int);
                lemma_nodes_split(self.buckets@, bnum as int);
                assert(self.buckets@.take(bnum as int) =~= pre.buckets@.take(bnum as int));
                assert(self.buckets@.skip(bnum as int + 1) =~= pre.buckets@.skip(bnum as int + 1));
                // a node with this identifier sits in the table exactly
                // when its routed bucket holds it
                let idv = node.id.deep_view();
                if exists|p: (<TId as DeepView>::V, <TAddr as DeepView>::V)|
                    #[trigger] pre.nodes().contains(p) && p.0 == idv {
                    let p = choose|p: (<TId as DeepView>::V, <TAddr as DeepView>::V)|
                        #[trigger] pre.nodes().contains(p) && p.0 == idv;
                    lemma_nodes_member(pre.buckets@, p);
                    let b = choose|b: int|
                        0 <= b < pre.buckets@.len() && (#[trigger] pre.buckets@[
                        b].view_nodes()).contains(p);
                    let j = choose|j: int|
                        0 <= j < pre.bucket_view(b).len() && pre.bucket_view(b)[j] == p;
                    assert(pre.routed(pre.bucket_view(b)[j].0, b));
                    assert(b == bnum as int);
                    assert(bpre.has_id(idv));
                    assert(b2.view_nodes().len() == bpre.view_nodes().len());
                } else {
                    assert(!bpre.has_id(idv)) by {
                        if bpre.has_id(idv) {
                            let j = choose|j: int|
                                0 <= j < bpre.view_nodes().len() && bpre.view_nodes()[j].0 == idv;
                            lemma_nodes_contains(
                                pre.buckets@,
                                bnum as int,
                                bpre.view_nodes()[j],
                            );
                            assert(pre.nodes().contains(bpre.view_nodes()[j]));
                        }
                    }
                    assert(b2.view_nodes().len() == bpre.view_nodes().len() + 1);
                }
            } else {
                assert(b2.view_nodes() == bpre.view_nodes());
                lemma_nodes_congruence(self.buckets@, pre.buckets@);
            }
            if bpre.has_id(nv.0) {
                let j = choose|j: int|
                    0 <= j < bpre.view_nodes().len() && bpre.view_nodes()[j].0 == nv.0
                        && b2.view_nodes() == bpre.view_nodes().remove(j).push(nv);
                assert(0 <= j < pre.bucket_view(bnum as int).len() && (#[trigger] pre.bucket_view(
                    bnum as int,
                )[j]).0 == nv.0 && final(self).bucket_view(bnum as int) == pre.bucket_view(
                    bnum as int,
                ).remove(j).push(nv));
            }
        }
        r
    }

    fn find(&self, id: &TId, count: usize) -> (r: Vec<Node<TId, TAddr>>) {
        let ghost tv = id.deep_view();
        let mut all: Vec<Node<TId, TAddr>> = Vec::new();
        proof {
            assert(self.buckets@.take(0) =~= Seq::empty());
            assert(views_of(all@) =~= nodes_of_buckets(self.buckets@.take(0)));
        }
        let mut i: usize = 0;
        while i < self.buckets.len()
            invariant
                i <= self.buckets@.len(),
                views_of(all@) == nodes_of_buckets(self.buckets@.take(i as int)),
            decreases self.buckets@.len() - i,
        {
            let b = &self.buckets[i];
            let ghost allpre = all@;
            let mut dup = duplicate_all(b.data());
            let ghost dupv = dup@;
            all.append(&mut dup);
            proof {
                lemma_nodes_take_step(self.buckets@, i as int);
                assert(views_of(all@) =~= views_of(allpre) + views_of(dupv));
            }
            i = i + 1;
        }
        proof {
            assert(self.buckets@.take(self.buckets@.len() as int) =~= self.buckets@);
        }
        let ghost allv = views_of(all@);
        let r = closest_of(all, id, count);
        proof {
            broadcast use group_to_multiset_ensures;

            assert forall|q: int|
                0 <= q < r@.len() implies self.nodes().contains(#[trigger] node_view(r@[q])) by {
                assert(views_of(r@)[q] == node_view(r@[q]));
                assert(views_of(r@).to_multiset().count(views_of(r@)[q]) > 0);
                assert(self.nodes().to_multiset().contains(node_view(r@[q])));
            }
            if exists|p: (<TId as DeepView>::V, <TAddr as DeepView>::V)|
                self.nodes().contains(p) && p.0 == tv {
                let p = choose|p: (<TId as DeepView>::V, <TAddr as DeepView>::V)|
                    self.nodes().contains(p) && p.0 == tv;
                assert(self.nodes().to_multiset().contains(p));
                assert(r@.len() >= 1);
                if views_of(r@).to_multiset().contains(p) {
                    assert(views_of(r@).contains(p));
                    let q = choose|q: int| 0 <= q < views_of(r@).len() && views_of(r@)[q] == p;
                    assert(r@[q].id.deep_view() == tv);
                } else {
                    let v0 = views_of(r@)[0].0;
                    assert(dist_le::<TId>(tv, v0, p.0));
                    assert(self.nodes().contains(views_of(r@)[0])) by {
                        assert(views_of(r@)[0] == node_view(r@[0]));
                    }
                    lemma_nodes_member(self.buckets@, views_of(r@)[0]);
                    let b = choose|b: int|
                        0 <= b < self.buckets@.len() && (#[trigger] self.buckets@[
                        b].view_nodes()).contains(views_of(r@)[0]);
                    let j = choose|j: int|
                        0 <= j < self.bucket_view(b).len() && self.bucket_view(b)[j] == views_of(
                            r@,
                        )[0];
                    assert(self.routed(self.bucket_view(b)[j].0, b));
                    assert(TId::width_v(v0) == TId::width_v(self.this_id_v()));
                    TId::lemma_xor_self(tv);
                    assert(TId::is_zero_v(TId::xor_v(tv, p.0)));
                    TId::lemma_xor_width(tv, v0);
                    TId::lemma_xor_width(tv, p.0);
                    TId::lemma_le_zero(TId::xor_v(tv, v0), TId::xor_v(tv, p.0));
                    TId::lemma_xor_zero(tv, v0);
                    assert(v0 == tv);
                    assert(r@[0].id.deep_view() == tv) by {
                        assert(views_of(r@)[0] == node_view(r@[0]));
                    }
                }
            }
        }
        r
    }

    fn pop_oldest(&mut self) -> (r: Vec<Node<TId, TAddr>>)
        ensures
            final(self).this_id_v() == old(self).this_id_v(),
            final(self).spec_hash_size() == old(self).spec_hash_size(),
            final(self).bucket_count() == old(self).bucket_count(),
            forall|b: int|
                0 <= b < old(self).bucket_count() ==> (#[trigger] final(self).bucket_cap(b)) == old(
                    self,
                ).bucket_cap(b) && (old(self).bucket_is_full(b) ==> final(self).bucket_view(b)
                    == old(self).bucket_view(b).drop_first()) && (!old(self).bucket_is_full(b)
                    ==> final(self).bucket_view(b) == old(self).bucket_view(b)),
    {
        let ghost pre = *self;
        let mut popped: Vec<Node<TId, TAddr>> = Vec::new();
        proof {
            assert(views_of(popped@) =~= pre.popped_up_to(0));
        }
        let mut i: usize = 0;
        while i < self.buckets.len()
            invariant
                i <= pre.buckets@.len(),
                self.buckets@.len() == pre.buckets@.len(),
                self.this_id == pre.this_id,
                self.hash_size == pre.hash_size,
                pre.wf(),
                *old(self) == pre,
                forall|b: int|
                    i <= b < pre.buckets@.len() ==> #[trigger] self.buckets@[b]
                        == pre.buckets@[b],
                forall|b: int|
                    0 <= b < i ==> (#[trigger] self.buckets@[b]).wf() && self.buckets@[b].capacity()
                        == pre.buckets@[b].capacity() && (pre.bucket_is_full(b)
                        ==> self.buckets@[b].view_nodes()
                        == pre.buckets@[b].view_nodes().drop_first()) && (!pre.bucket_is_full(b)
                        ==> self.buckets@[b] == pre.buckets@[b]),
                views_of(popped@) == pre.popped_up_to(i as int),
                forall|q: int|
                    0 <= q < popped@.len() ==> nodes_of_buckets(pre.buckets@).contains(
                        #[trigger] views_of(popped@)[q],
                    ) && pre.accepts(views_of(popped@)[q].0),
            decreases self.buckets@.len() - i,
        {
            let is_full = {
                let b = &self.buckets[i];
                b.data().len() == b.size() && b.data().len() > 0
            };
            let ghost poppedpre = popped@;
            let ghost iterpre = self.buckets@;
            if is_full {
                let mut b = self.buckets.remove(i);
                let n = b.pop_front();
                popped.push(n);
                self.buckets.insert(i, b);
                proof {
                    assert(self.buckets@ =~= iterpre.update(i as int, self.buckets@[i as int]));
                    assert(views_of(popped@) =~= views_of(poppedpre) + seq![
                        pre.buckets@[i as int].view_nodes()[0],
                    ]);
                    lemma_nodes_contains(
                        pre.buckets@,
                        i as int,
                        pre.buckets@[i as int].view_nodes()[0],
                    );
                    assert(pre.routed(pre.bucket_view(i as int)[0].0, i as int));
                    TId::lemma_bits_range(
                        TId::xor_v(pre.this_id_v(), pre.bucket_view(i as int)[0].0),
                    );
                }
            }
            proof {
                assert(pre.popped_up_to(i as int + 1) == pre.popped_up_to(i as int) + (
                if pre.bucket_is_full(i as int) {
                    seq![pre.bucket_view(i as int)[0]]
                } else {
                    Seq::empty()
                }));
                if !is_full {
                    assert(views_of(popped@) =~= views_of(poppedpre) + Seq::empty());
                }
            }
            i = i + 1;
        }
        proof {
            assert(final(self).wf()) by {
                assert forall|b: int, j: int|
                    0 <= b < self.bucket_count() && 0 <= j < self.bucket_view(b).len()
                    implies self.routed((#[trigger] self.bucket_view(b)[j]).0, b) by {
                    if pre.bucket_is_full(b) {
                        assert(self.bucket_view(b)[j] == pre.bucket_view(b)[j + 1]);
                        assert(pre.routed(pre.bucket_view(b)[j + 1].0, b));
                    } else {
                        assert(pre.routed(pre.bucket_view(b)[j].0, b));
                    }
                }
            }
            assert forall|q: int|
                0 <= q < popped@.len() implies old(self).nodes().contains(
                #[trigger] node_view(popped@[q]),
            ) && final(self).accepts(popped@[q].id.deep_view()) by {
                assert(views_of(popped@)[q] == node_view(popped@[q]));
            }
            lemma_pop_multiset(pre, *self, pre.bucket_count());
            assert(pre.buckets@.take(pre.bucket_count()) =~= pre.buckets@);
            assert(self.buckets@.take(pre.bucket_count()) =~= self.buckets@);
        }
        popped
    }
}

/// The multiset of a take-prefix is included in the sequence's multiset.
proof fn lemma_take_multisets<A>(s: Seq<A>, n: int)
    requires
        0 <= n <= s.len(),
    ensures
        s.take(n).to_multiset().subset_of(s.to_multiset()),
    decreases s.len() - n,
{
    broadcast use group_to_multiset_ensures;

    if n == s.len() {
        assert(s.take(n) =~= s);
    } else {
        lemma_take_multisets(s, n + 1);
        assert(s.take(n + 1) =~= s.take(n).push(s[n]));
        assert(s.take(n + 1).to_multiset() =~= s.take(n).to_multiset().insert(s[n]));
        assert forall|x: A|
            s.take(n).to_multiset().count(x) <= s.to_multiset().count(x) by {
            assert(s.take(n).to_multiset().count(x) <= s.take(n + 1).to_multiset().count(x));
        }
    }
}

} // verus!
