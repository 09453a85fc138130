use vstd::prelude::*;
use crate::op::Operation;
use crate::tensor::storage::{model_wf, StorageModel, TensorStorage};

verus! {

/// The side-table from node identifier to materialized storage, held densely
/// by node identifier.
#[derive(Debug)]
pub struct StorageMap {
    slots: Vec<Option<TensorStorage>>,
}

impl View for StorageMap {
    type V = Map<int, StorageModel>;

    closed spec fn view(&self) -> Map<int, StorageModel> {
        Map::new(
            |i: int| 0 <= i < self.slots@.len() && self.slots@[i] is Some,
            |i: int| self.slots@[i]->Some_0@,
        )
    }
}

impl StorageMap {
    pub fn new() -> (r: StorageMap)
        ensures
            r@ == Map::<int, StorageModel>::empty(),
    {
        let r = StorageMap { slots: Vec::new() };
        proof {
            assert(r@ =~= Map::<int, StorageModel>::empty());
        }
        r
    }

    /// An empty table with room reserved; the reservation is a performance
    /// hint only.
    pub fn with_capacity(capacity: usize) -> (r: StorageMap)
        ensures
            r@ == Map::<int, StorageModel>::empty(),
    {
        let r = StorageMap { slots: Vec::with_capacity(capacity) };
        proof {
            assert(r@ =~= Map::<int, StorageModel>::empty());
        }
        r
    }

    /// Bind `node` to `storage`, replacing any earlier binding.
    pub fn insert(&mut self, node: usize, storage: TensorStorage)
        ensures
            final(self)@ == old(self)@.insert(node as int, storage@),
    {
        let ghost prior = self@;
        while self.slots.len() <= node
            invariant
                self@ == prior,
                old(self)@ == prior,
            decreases node + 1 - self.slots@.len(),
        {
            let ghost before = self.slots@;
            self.slots.push(None);
            proof {
                assert(self@ =~= prior);
            }
        }
        self.slots[node] = Some(storage);
        proof {
            assert(self@ =~= prior.insert(node as int, storage@));
        }
    }

    /// Look a node's storage up.
    pub fn get(&self, node: usize) -> (r: Option<&TensorStorage>)
        ensures
            match r {
                Some(s) => self@.dom().contains(node as int) && s@ == self@[node as int],
                None => !self@.dom().contains(node as int),
            },
    {
        if node < self.slots.len() {
            match &self.slots[node] {
                Some(s) => Some(s),
                None => None,
            }
        } else {
            None
        }
    }
}

impl Clone for StorageMap {
    /// A deep copy holding the same table.
    fn clone(&self) -> (r: StorageMap)
        ensures
            r@ == self@,
    {
        let mut slots: Vec<Option<TensorStorage>> = Vec::new();
        let mut i: usize = 0;
        while i < self.slots.len()
            invariant
                i <= self.slots@.len(),
                slots@.len() == i,
                forall|t: int|
                    0 <= t < i ==> (slots@[t] is Some == self.slots@[t] is Some) && (
                    slots@[t] is Some ==> slots@[t]->Some_0@ == self.slots@[t]->Some_0@),
            decreases self.slots@.len() - i,
        {
            match &self.slots[i] {
                Some(s) => slots.push(Some(s.clone())),
                None => slots.push(None),
            }
            i = i + 1;
        }
        let r = StorageMap { slots };
        proof {
            assert(r@ =~= self@);
        }
        r
    }
}

/// The graph intermediate representation: one operation kind per node, the
/// node's identifier being its index; directed dependency edges
/// (source, consumer) in insertion order, which is semantically significant
/// — a binary node's first incoming edge names its left operand; and the
/// storage side-table for nodes whose value is already known.
#[derive(Debug)]
pub struct GraphInner {
    pub ops: Vec<Operation>,
    pub edges: Vec<(usize, usize)>,
    pub tensor_map: StorageMap,
}

impl GraphInner {
    /// Every edge joins two existing nodes, and every materialized storage
    /// belongs to an existing node and satisfies the storage invariant.
    pub open spec fn wf(&self) -> bool {
        &&& forall|i: int|
            0 <= i < self.edges@.len() ==> (#[trigger] self.edges@[i]).0 < self.ops@.len()
                && self.edges@[i].1 < self.ops@.len()
        &&& forall|n: int|
            #[trigger] self.tensor_map@.dom().contains(n) ==> 0 <= n < self.ops@.len()
        &&& forall|n: int|
            self.tensor_map@.dom().contains(n) ==> model_wf(#[trigger] self.tensor_map@[n])
    }

    pub fn new() -> (r: GraphInner)
        ensures
            r.wf(),
            r.ops@.len() == 0,
            r.edges@.len() == 0,
            r.tensor_map@ == Map::<int, StorageModel>::empty(),
    {
        GraphInner { ops: Vec::new(), edges: Vec::new(), tensor_map: StorageMap::new() }
    }

    /// As `new`; the capacity is a pre-allocation hint, not
    /// correctness-bearing.
    pub fn with_capacity(capacity: usize) -> (r: GraphInner)
        ensures
            r.wf(),
            r.ops@.len() == 0,
            r.edges@.len() == 0,
            r.tensor_map@ == Map::<int, StorageModel>::empty(),
    {
        GraphInner {
            ops: Vec::with_capacity(capacity),
            edges: Vec::with_capacity(capacity),
            tensor_map: StorageMap::with_capacity(capacity),
        }
    }

    /// Append a node with no edges; its identifier is returned.
    pub fn add_op(&mut self, op: Operation) -> (id: usize)
        requires
            old(self).wf(),
        ensures
            final(self).wf(),
            id == old(self).ops@.len(),
            final(self).ops@ == old(self).ops@.push(op),
            final(self).edges@ == old(self).edges@,
            final(self).tensor_map@ == old(self).tensor_map@,
    {
        let id = self.ops.len();
        self.ops.push(op);
        proof {
            assert(self.wf()) by {
                assert forall|i: int| 0 <= i < self.edges@.len() implies (
                #[trigger] self.edges@[i]).0 < self.ops@.len() && self.edges@[i].1
                    < self.ops@.len() by {
                    assert(old(self).edges@[i].0 < old(self).ops@.len());
                }
                assert forall|n: int| #[trigger] self.tensor_map@.dom().contains(n) implies 0
                    <= n < self.ops@.len() by {
                    assert(old(self).tensor_map@.dom().contains(n));
                }
                assert forall|n: int| self.tensor_map@.dom().contains(n) implies model_wf(
                    #[trigger] self.tensor_map@[n],
                ) by {
                    assert(old(self).tensor_map@.dom().contains(n));
                    assert(model_wf(old(self).tensor_map@[n]));
                }
            }
        }
        id
    }

    /// Append a binary node plus its two incoming edges, left operand first;
    /// the insertion order of the edges carries the operand roles.
    pub fn add_binary_op(&mut self, lhs: usize, rhs: usize, op: Operation) -> (id: usize)
        requires
            old(self).wf(),
            lhs < old(self).ops@.len(),
            rhs < old(self).ops@.len(),
        ensures
            final(self).wf(),
            id == old(self).ops@.len(),
            final(self).ops@ == old(self).ops@.push(op),
            final(self).edges@ == old(self).edges@.push((lhs, id)).push((rhs, id)),
            final(self).tensor_map@ == old(self).tensor_map@,
    {
        let id = self.add_op(op);
        self.edges.push((lhs, id));
        self.edges.push((rhs, id));
        proof {
            assert(self.wf()) by {
                assert forall|i: int| 0 <= i < self.edges@.len() implies (
                #[trigger] self.edges@[i]).0 < self.ops@.len() && self.edges@[i].1
                    < self.ops@.len() by {
                    if i < old(self).edges@.len() {
                        assert(old(self).edges@[i].0 < old(self).ops@.len());
                    }
                }
                assert forall|n: int| #[trigger] self.tensor_map@.dom().contains(n) implies 0
                    <= n < self.ops@.len() by {
                    assert(old(self).tensor_map@.dom().contains(n));
                }
                assert forall|n: int| self.tensor_map@.dom().contains(n) implies model_wf(
                    #[trigger] self.tensor_map@[n],
                ) by {
                    assert(old(self).tensor_map@.dom().contains(n));
                    assert(model_wf(old(self).tensor_map@[n]));
                }
            }
        }
        id
    }

    /// Materialize a node's value in the side-table.
    pub fn add_storage(&mut self, node_id: usize, storage: TensorStorage)
        requires
            old(self).wf(),
            node_id < old(self).ops@.len(),
            model_wf(storage@),
        ensures
            final(self).wf(),
            final(self).ops@ == old(self).ops@,
            final(self).edges@ == old(self).edges@,
            final(self).tensor_map@ == old(self).tensor_map@.insert(node_id as int, storage@),
    {
        self.tensor_map.insert(node_id, storage);
        proof {
            assert(self.wf()) by {
                assert forall|n: int| #[trigger] self.tensor_map@.dom().contains(n) implies 0
                    <= n < self.ops@.len() by {
                    if n != node_id {
                        assert(old(self).tensor_map@.dom().contains(n));
                    }
                }
                assert forall|n: int| self.tensor_map@.dom().contains(n) implies model_wf(
                    #[trigger] self.tensor_map@[n],
                ) by {
                    if n != node_id {
                        assert(old(self).tensor_map@.dom().contains(n));
                        assert(model_wf(old(self).tensor_map@[n]));
                        assert(self.tensor_map@[n] == old(self).tensor_map@[n]);
                    } else {
                        assert(self.tensor_map@[n] == storage@);
                    }
                }
            }
        }
    }
}

} // verus!
