//! Protocol-agnostic service implementation.

use std::marker::PhantomData;

use vstd::pervasive::cloned;
use vstd::prelude::*;

use crate::base::{
    dist_le, node_view, sorted_by_dist, table_pop_post, table_update_post, views_of, GenericAddr,
    GenericId, GenericNodeTable, Node,
};
use crate::store::KeyValueStore;

verus! {

/// The number of nodes a find request returns at most.
pub const MAX_NODE_COUNT: usize = 16;

/// Result of the find operations: either the data, or the nodes closest
/// to it.
#[derive(Debug)]
pub enum FindResult<TId, TAddr, TData> {
    /// The value stored under the requested identifier.
    Value(TData),
    /// No value is stored there: the known nodes closest to it.
    ClosestNodes(Vec<Node<TId, TAddr>>),
    /// Nothing at all is known.
    Nothing,
}

/// Handler: implementation of DHT requests.
///
/// It owns the node table and the value store on behalf of the service
/// that created it, together with the `clean_needed` maintenance flag.
pub struct Handler<TId, TAddr, TNodeTable, TData> {
    _phantom: PhantomData<TAddr>,
    node_id: TId,
    table: TNodeTable,
    data: KeyValueStore<TId, TData>,
    clean_needed: bool,
}

impl<
    TId: GenericId,
    TAddr: GenericAddr,
    TNodeTable: GenericNodeTable<TId, TAddr>,
    TData: Clone,
> Handler<TId, TAddr, TNodeTable, TData> {
    /// Abstract value of the local node's identifier.
    pub closed spec fn node_id_v(&self) -> <TId as DeepView>::V {
        self.node_id.deep_view()
    }

    /// The node table.
    pub closed spec fn table_v(&self) -> TNodeTable {
        self.table
    }

    /// The value store.
    pub closed spec fn store_v(&self) -> KeyValueStore<TId, TData> {
        self.data
    }

    /// The mapping held by the value store.
    pub open spec fn store_map(&self) -> Map<<TId as DeepView>::V, TData> {
        self.store_v().map_v()
    }

    /// Whether some table update was rejected for lack of bucket space
    /// since the last maintenance pass.
    pub closed spec fn spec_clean_needed(&self) -> bool {
        self.clean_needed
    }

    /// Structural invariant: the table and the store are well-formed.
    pub open spec fn wf(&self) -> bool {
        self.table_v().wf() && self.store_v().wf()
    }

    /// Identifiers a request may carry: the local identifier itself (such
    /// a sender is simply not recorded) or one the table accepts.
    pub open spec fn sender_ok(&self, id: <TId as DeepView>::V) -> bool {
        id == self.node_id_v() || self.table_v().accepts(id)
    }

    /// Process a ping request.
    ///
    /// Always answers true; as a side effect, attempts to record the
    /// sender in the table ("the sender is reachable and should be
    /// remembered").
    pub fn on_ping(&mut self, sender: &Node<TId, TAddr>) -> (r: bool)
        requires
            old(self).wf(),
            old(self).sender_ok(sender.id.deep_view()),
        ensures
            r == true,
            recorded(*old(self), *final(self), *sender),
    {
        self.update(sender);
        true
    }

    /// Process a find-node request: the stored nodes closest to `id`,
    /// recording the sender as a side effect.
    ///
    /// The result reflects the table as it was before the sender was
    /// recorded.
    pub fn on_find_node(&mut self, sender: &Node<TId, TAddr>, id: &TId) -> (r: Vec<
        Node<TId, TAddr>,
    >)
        requires
            old(self).wf(),
            old(self).sender_ok(sender.id.deep_view()),
            old(self).table_v().accepts(id.deep_view()),
        ensures
            recorded(*old(self), *final(self), *sender),
            closest_nodes_of(old(self).table_v(), id.deep_view(), r@),
    {
        let res = self.table.find(id, MAX_NODE_COUNT);
        self.update(sender);
        res
    }

    /// Process a find-value request: the stored value under `id` if any,
    /// else the stored nodes closest to `id`. Records the sender as a
    /// side effect.
    pub fn on_find_value(&mut self, sender: &Node<TId, TAddr>, id: &TId) -> (r: FindResult<
        TId,
        TAddr,
        TData,
    >)
        requires
            old(self).wf(),
            old(self).sender_ok(sender.id.deep_view()),
            old(self).store_map().contains_key(id.deep_view()) || old(self).table_v().accepts(
                id.deep_view(),
            ),
        ensures
            recorded(*old(self), *final(self), *sender),
            !(r is Nothing),
            old(self).store_map().contains_key(id.deep_view()) ==> (r
                matches FindResult::Value(v) && cloned::<TData>(
                old(self).store_map()[id.deep_view()],
                v,
            )),
            !old(self).store_map().contains_key(id.deep_view()) ==> (r
                matches FindResult::ClosestNodes(ns) && closest_nodes_of(
                final(self).table_v(),
                id.deep_view(),
                ns@,
            )),
    {
        self.update(sender);
        let found = self.data.get(id);
        match found {
            Some(value) => FindResult::Value(value.clone()),
            None => FindResult::ClosestNodes(self.table.find(id, MAX_NODE_COUNT)),
        }
    }

    /// Record a node in the table, unless it is this node itself. A
    /// rejected update (its bucket is full) raises `clean_needed`.
    fn update(&mut self, node: &Node<TId, TAddr>)
        requires
            old(self).wf(),
            old(self).sender_ok(node.id.deep_view()),
        ensures
            recorded(*old(self), *final(self), *node),
    {
        if node.id.eq_id(&self.node_id) {
            return ;
        }
        let stored = self.table.update(node);
        if !stored {
            self.clean_needed = true;
        }
    }
}

/// How one request changes the handler: the local identifier and the
/// store are untouched; the sender is recorded in the table when it is
/// distinct from this node and its bucket has room (or already knows
/// it), and `clean_needed` rises exactly when the insert was rejected.
pub open spec fn recorded<
    TId: GenericId,
    TAddr: GenericAddr,
    TNodeTable: GenericNodeTable<TId, TAddr>,
    TData: Clone,
>(
    pre: Handler<TId, TAddr, TNodeTable, TData>,
    post: Handler<TId, TAddr, TNodeTable, TData>,
    sender: Node<TId, TAddr>,
) -> bool {
    &&& post.wf()
    &&& post.node_id_v() == pre.node_id_v()
    &&& post.store_v() == pre.store_v()
    &&& (forall|x: <TId as DeepView>::V|
        post.table_v().accepts(x) == pre.table_v().accepts(x))
    &&& (sender.id.deep_view() == pre.node_id_v() ==> post.table_v() == pre.table_v())
    &&& (sender.id.deep_view() != pre.node_id_v() ==> table_update_post(
        pre.table_v(),
        post.table_v(),
        node_view(sender),
        pre.table_v().can_update(node_view(sender)),
    ))
    &&& post.spec_clean_needed() == (pre.spec_clean_needed() || (sender.id.deep_view()
        != pre.node_id_v() && !pre.table_v().can_update(node_view(sender))))
}

/// What a find request answers from a table: the `MAX_NODE_COUNT`
/// stored nodes nearest to the target (all of them if fewer are
/// stored), ordered by ascending XOR distance, every node left out at
/// least as far as every node returned, and a stored node carrying the
/// target identifier always among them.
pub open spec fn closest_nodes_of<
    TId: GenericId,
    TAddr: GenericAddr,
    TNodeTable: GenericNodeTable<TId, TAddr>,
>(table: TNodeTable, idv: <TId as DeepView>::V, ns: Seq<Node<TId, TAddr>>) -> bool {
    &&& ns.len() == vstd::math::min(MAX_NODE_COUNT as int, table.nodes().len() as int)
    &&& sorted_by_dist::<TId, TAddr>(idv, views_of(ns))
    &&& views_of(ns).to_multiset().subset_of(table.nodes().to_multiset())
    &&& (forall|i: int| 0 <= i < ns.len() ==> table.nodes().contains(#[trigger] node_view(ns[i])))
    &&& (forall|x: (<TId as DeepView>::V, <TAddr as DeepView>::V)|
        table.nodes().to_multiset().contains(x) && !views_of(ns).to_multiset().contains(x)
            ==> forall|i: int|
            0 <= i < ns.len() ==> dist_le::<TId>(idv, #[trigger] views_of(ns)[i].0, x.0))
    &&& ((exists|p: (<TId as DeepView>::V, <TAddr as DeepView>::V)|
        table.nodes().contains(p) && p.0 == idv) ==> (exists|i: int|
        0 <= i < ns.len() && ns[i].id.deep_view() == idv))
}

/// One maintenance step: the candidate was probed with `check`; if it
/// passed, it was offered back to the table, else the table is
/// untouched.
pub open spec fn cleanup_step<
    TId: GenericId,
    TAddr: GenericAddr,
    TNodeTable: GenericNodeTable<TId, TAddr>,
    TCheck: Fn(&Node<TId, TAddr>) -> bool,
>(pre: TNodeTable, mid: TNodeTable, cand: Node<TId, TAddr>, passed: bool, check: TCheck) -> bool {
    &&& call_ensures(check, (&cand,), passed)
    &&& (passed ==> table_update_post(
        pre,
        mid,
        node_view(cand),
        pre.can_update(node_view(cand)),
    ))
    &&& (!passed ==> mid == pre)
}

/// The maintenance pass over a sequence of candidates: each one in turn
/// is probed with `check`; a candidate that passes is offered back to
/// the table, one that fails leaves it unchanged.
pub open spec fn cleanup_chain<
    TId: GenericId,
    TAddr: GenericAddr,
    TNodeTable: GenericNodeTable<TId, TAddr>,
    TCheck: Fn(&Node<TId, TAddr>) -> bool,
>(pre: TNodeTable, post: TNodeTable, cands: Seq<Node<TId, TAddr>>, check: TCheck) -> bool
    decreases cands.len(),
{
    if cands.len() == 0 {
        post == pre
    } else {
        exists|passed: bool, mid: TNodeTable|
            #![trigger cleanup_step(pre, mid, cands[0], passed, check)]
            cleanup_step(pre, mid, cands[0], passed, check) && cleanup_chain(
                mid,
                post,
                cands.drop_first(),
                check,
            )
    }
}

/// The whole maintenance pass: the oldest node of every saturated part
/// of the table was handed out, and each candidate was probed and
/// conditionally re-inserted.
pub open spec fn cleaned_up<
    TId: GenericId,
    TAddr: GenericAddr,
    TNodeTable: GenericNodeTable<TId, TAddr>,
    TCheck: Fn(&Node<TId, TAddr>) -> bool,
>(
    pre: TNodeTable,
    post: TNodeTable,
    mid: TNodeTable,
    cands: Seq<Node<TId, TAddr>>,
    check: TCheck,
) -> bool {
    &&& table_pop_post(pre, mid)
    &&& views_of(cands) == pre.pop_candidates()
    &&& cleanup_chain(mid, post, cands, check)
}

/// Probing one more candidate extends the maintenance pass by one step.
proof fn lemma_cleanup_chain_snoc<
    TId: GenericId,
    TAddr: GenericAddr,
    TNodeTable: GenericNodeTable<TId, TAddr>,
    TCheck: Fn(&Node<TId, TAddr>) -> bool,
>(
    first: TNodeTable,
    mid: TNodeTable,
    post: TNodeTable,
    cands: Seq<Node<TId, TAddr>>,
    n: Node<TId, TAddr>,
    passed: bool,
    check: TCheck,
)
    requires
        cleanup_chain(first, mid, cands, check),
        cleanup_step(mid, post, n, passed, check),
    ensures
        cleanup_chain(first, post, cands.push(n), check),
    decreases cands.len(),
{
    let s2 = cands.push(n);
    if cands.len() == 0 {
        assert(mid == first);
        assert(s2[0] == n);
        assert(s2.drop_first() =~= Seq::<Node<TId, TAddr>>::empty());
        assert(cleanup_chain(post, post, s2.drop_first(), check));
        assert(cleanup_step(first, post, s2[0], passed, check));
        assert(cleanup_chain(first, post, s2, check));
    } else {
        let (p0, m0): (bool, TNodeTable) = choose|p0: bool, m0: TNodeTable|
            #![trigger cleanup_step(first, m0, cands[0], p0, check)]
            cleanup_step(first, m0, cands[0], p0, check) && cleanup_chain(
                m0,
                mid,
                cands.drop_first(),
                check,
            );
        lemma_cleanup_chain_snoc(m0, mid, post, cands.drop_first(), n, passed, check);
        assert(s2.drop_first() =~= cands.drop_first().push(n));
        assert(s2[0] == cands[0]);
        assert(cleanup_step(first, m0, s2[0], p0, check));
        assert(cleanup_chain(first, post, s2, check));
    }
}

/// Protocol-agnostic DHT service.
///
/// Owns the handler together with its node table (see e.g. `KNodeTable`)
/// and the store of values of type `TData`, and exposes construction and
/// maintenance on top of it.
///
/// The service is a sequential object: a deployment that dispatches
/// requests concurrently shares one service behind its own lock, so that
/// every request observes a single consistent table and store.
pub struct Service<TId, TAddr, TNodeTable, TData> {
    /// The request handler holding the service's state.
    pub handler: Handler<TId, TAddr, TNodeTable, TData>,
}

impl<
    TId: GenericId,
    TAddr: GenericAddr,
    TNodeTable: GenericNodeTable<TId, TAddr>,
    TData: Clone,
> Service<TId, TAddr, TNodeTable, TData> {
    /// Create a service with a random ID.
    pub fn new(node_table: TNodeTable) -> (r: Service<TId, TAddr, TNodeTable, TData>)
        requires
            node_table.wf(),
        ensures
            r.handler.wf(),
            r.handler.table_v() == node_table,
            r.handler.store_map() == Map::<<TId as DeepView>::V, TData>::empty(),
            !r.handler.spec_clean_needed(),
    {
        let node_id = node_table.random_id();
        Service::new_with_id(node_table, node_id)
    }

    /// Create a service with a given ID.
    pub fn new_with_id(node_table: TNodeTable, node_id: TId) -> (r: Service<
        TId,
        TAddr,
        TNodeTable,
        TData,
    >)
        requires
            node_table.wf(),
        ensures
            r.handler.wf(),
            r.handler.node_id_v() == node_id.deep_view(),
            r.handler.table_v() == node_table,
            r.handler.store_map() == Map::<<TId as DeepView>::V, TData>::empty(),
            !r.handler.spec_clean_needed(),
    {
        Service {
            handler: Handler {
                _phantom: PhantomData,
                node_id,
                table: node_table,
                data: KeyValueStore::new(),
                clean_needed: false,
            },
        }
    }

    /// Get an immutable reference to the node table.
    pub fn node_table(&self) -> (r: &TNodeTable)
        ensures
            *r == self.handler.table_v(),
    {
        &self.handler.table
    }

    /// Get a mutable reference to the node table.
    pub fn node_table_mut(&mut self) -> (r: &mut TNodeTable)
        ensures
            *r == old(self).handler.table_v(),
            final(self).handler.table_v() == *final(r),
            final(self).handler.node_id_v() == old(self).handler.node_id_v(),
            final(self).handler.store_v() == old(self).handler.store_v(),
            final(self).handler.store_map() == old(self).handler.store_map(),
            final(self).handler.spec_clean_needed() == old(self).handler.spec_clean_needed(),
    {
        &mut self.handler.table
    }

    /// Get the current node ID.
    pub fn node_id(&self) -> (r: &TId)
        ensures
            r.deep_view() == self.handler.node_id_v(),
    {
        &self.handler.node_id
    }

    /// Get an immutable reference to the stored data.
    pub fn stored_data(&self) -> (r: &KeyValueStore<TId, TData>)
        ensures
            r.map_v() == self.handler.store_map(),
    {
        &self.handler.data
    }

    /// Get a mutable reference to the stored data.
    pub fn stored_data_mut(&mut self) -> (r: &mut KeyValueStore<TId, TData>)
        ensures
            *r == old(self).handler.store_v(),
            final(self).handler.store_v() == *final(r),
            final(self).handler.table_v() == old(self).handler.table_v(),
            final(self).handler.node_id_v() == old(self).handler.node_id_v(),
            final(self).handler.spec_clean_needed() == old(self).handler.spec_clean_needed(),
    {
        &mut self.handler.data
    }

    /// Check if some buckets are full already.
    pub fn clean_needed(&self) -> (r: bool)
        ensures
            r == self.handler.spec_clean_needed(),
    {
        self.handler.clean_needed
    }

    /// Try to clean up the table by checking the oldest records.
    ///
    /// Every bucket at capacity gives up its oldest node; each such node
    /// is probed with `check` (an externally supplied liveness test) and
    /// re-inserted if it passes. The pass clears `clean_needed`
    /// unconditionally: a later saturation will raise it again.
    ///
    /// Should be called periodically, especially when `clean_needed` is
    /// true.
    pub fn clean_up<TCheck: Fn(&Node<TId, TAddr>) -> bool>(&mut self, check: TCheck)
        requires
            old(self).handler.wf(),
            forall|n: &Node<TId, TAddr>| check.requires((n,)),
        ensures
            final(self).handler.wf(),
            !final(self).handler.spec_clean_needed(),
            final(self).handler.node_id_v() == old(self).handler.node_id_v(),
            final(self).handler.store_v() == old(self).handler.store_v(),
            final(self).handler.store_map() == old(self).handler.store_map(),
            forall|x: <TId as DeepView>::V|
                final(self).handler.table_v().accepts(x) == old(self).handler.table_v().accepts(
                    x,
                ),
            exists|mid: TNodeTable, cands: Seq<Node<TId, TAddr>>|
                #![trigger cleaned_up(
                    old(self).handler.table_v(),
                    final(self).handler.table_v(),
                    mid,
                    cands,
                    check,
                )]
                cleaned_up(
                    old(self).handler.table_v(),
                    final(self).handler.table_v(),
                    mid,
                    cands,
                    check,
                ),
    {
        let ghost pre = *self;
        let oldest = self.handler.table.pop_oldest();
        let ghost mid0 = self.handler.table_v();
        proof {
            assert forall|q: int| 0 <= q < oldest@.len() implies pre.handler.table_v().accepts(
                (#[trigger] oldest@[q]).id.deep_view(),
            ) by {
                assert(node_view(oldest@[q]).0 == oldest@[q].id.deep_view());
            }
            assert(table_pop_post(pre.handler.table_v(), mid0)) by {
                let ptab = pre.handler.table_v();
                assert forall|q: int| 0 <= q < ptab.pop_candidates().len() implies ptab.nodes()
                    .contains(#[trigger] ptab.pop_candidates()[q]) && mid0.accepts(
                    ptab.pop_candidates()[q].0,
                ) by {
                    assert(ptab.pop_candidates()[q] == node_view(oldest@[q]));
                }
            }
            assert(oldest@.take(0) =~= Seq::<Node<TId, TAddr>>::empty());
        }
        let mut i: usize = 0;
        while i < oldest.len()
            invariant
                i <= oldest@.len(),
                self.handler.wf(),
                self.handler.node_id_v() == pre.handler.node_id_v(),
                self.handler.store_v() == pre.handler.store_v(),
                self.handler.store_map() == pre.handler.store_map(),
                self.handler.spec_clean_needed() == pre.handler.spec_clean_needed(),
                forall|x: <TId as DeepView>::V|
                    self.handler.table_v().accepts(x) == pre.handler.table_v().accepts(x),
                forall|q: int|
                    0 <= q < oldest@.len() ==> pre.handler.table_v().accepts(
                        (#[trigger] oldest@[q]).id.deep_view(),
                    ),
                forall|n: &Node<TId, TAddr>| check.requires((n,)),
                cleanup_chain(mid0, self.handler.table_v(), oldest@.take(i as int), check),
            decreases oldest@.len() - i,
        {
            let node = &oldest[i];
            let ghost tpre = self.handler.table_v();
            let passed = check(node);
            if passed {
                let stored = self.handler.table.update(node);
                proof {
                    assert(stored == tpre.can_update(node_view(oldest@[i as int])));
                }
            }
            proof {
                assert(cleanup_step(
                    tpre,
                    self.handler.table_v(),
                    oldest@[i as int],
                    passed,
                    check,
                ));
                assert(oldest@.take(i as int + 1) =~= oldest@.take(i as int).push(
                    oldest@[i as int],
                ));
                lemma_cleanup_chain_snoc(
                    mid0,
                    tpre,
                    self.handler.table_v(),
                    oldest@.take(i as int),
                    oldest@[i as int],
                    passed,
                    check,
                );
            }
            i = i + 1;
        }
        proof {
            assert(oldest@.take(oldest@.len() as int) =~= oldest@);
        }
        self.handler.clean_needed = false;
        proof {
            assert(cleaned_up(
                old(self).handler.table_v(),
                final(self).handler.table_v(),
                mid0,
                oldest@,
                check,
            ));
        }
    }
}

} // verus!
