use vstd::prelude::*;
use vstd::pervasive::unreached;
use crate::cpu::{cpu_add, cpu_div, cpu_mul, cpu_sub, src_offset, ElementKernel};
use crate::op::{is_binary_op, is_leaf_op, Operation};
use crate::graph::inner::{GraphInner, StorageMap};
use crate::graph::tensor::GraphTensor;
use crate::tensor::shape::{bcast_compat, bcast_dims, clone_dims, dims_wf, prod_of, Shape};
use crate::tensor::storage::{
    clone_vec_copy, model_f32_data, model_shape, model_wf, StorageModel, TensorStorage,
};

verus! {

/// The execution fault taxonomy: a cyclic graph at compile time; a missing
/// placeholder binding, naming the node, at execution time; and an invalid
/// operation at execution time — wrong incoming-edge count, an unresolved
/// dependency, or shapes found incompatible only during execution.
#[derive(Clone, Copy, Debug, PartialEq, Eq, Structural)]
pub enum ExecutionError {
    MissingInput(usize),
    InvalidOperation,
    CyclicGraph,
}

/// How many entries of a mark vector are still unset.
pub open spec fn count_false(s: Seq<bool>) -> nat
    decreases s.len(),
{
    if s.len() == 0 {
        0
    } else {
        count_false(s.drop_last()) + if s.last() {
            0nat
        } else {
            1nat
        }
    }
}

proof fn lemma_count_false_update(s: Seq<bool>, i: int)
    requires
        0 <= i < s.len(),
        !s[i],
    ensures
        count_false(s.update(i, true)) + 1 == count_false(s),
    decreases s.len(),
{
    let t = s.update(i, true);
    if i == s.len() - 1 {
        assert(t.drop_last() =~= s.drop_last());
    } else {
        assert(t.drop_last() =~= s.drop_last().update(i, true));
        lemma_count_false_update(s.drop_last(), i);
    }
}

proof fn lemma_count_all_true(s: Seq<bool>)
    requires
        forall|i: int| 0 <= i < s.len() ==> s[i],
    ensures
        count_false(s) == 0,
    decreases s.len(),
{
    if s.len() > 0 {
        lemma_count_all_true(s.drop_last());
    }
}

proof fn lemma_count_false_zero(s: Seq<bool>)
    requires
        count_false(s) == 0,
    ensures
        forall|i: int| 0 <= i < s.len() ==> s[i],
    decreases s.len(),
{
    if s.len() > 0 {
        lemma_count_false_zero(s.drop_last());
        assert forall|i: int| 0 <= i < s.len() implies s[i] by {
            if i < s.len() - 1 {
                assert(s.drop_last()[i]);
            }
        }
    }
}

proof fn lemma_count_false_nonzero(s: Seq<bool>)
    requires
        count_false(s) > 0,
    ensures
        exists|i: int| 0 <= i < s.len() && !s[i],
{
    if forall|i: int| 0 <= i < s.len() ==> s[i] {
        lemma_count_all_true(s);
        assert(false);
    }
}

/// The set of node identifiers a mark vector marks.
pub open spec fn marked_set(req: Seq<bool>) -> Set<int> {
    Set::new(|v: int| 0 <= v < req.len() && req[v])
}

/// `s` is closed under dependencies: with any consumer it holds every source
/// feeding it.
pub open spec fn closed_under_deps(edges: Seq<(usize, usize)>, s: Set<int>) -> bool {
    forall|i: int|
        0 <= i < edges.len() && s.contains((#[trigger] edges[i]).1 as int) ==> s.contains(
            edges[i].0 as int,
        )
}

/// Some dependency of `w` is still unmarked.
pub open spec fn has_unplaced_dep(edges: Seq<(usize, usize)>, placed: Seq<bool>, w: int) -> bool {
    exists|i: int|
        0 <= i < edges.len() && (#[trigger] edges[i]).1 == w && !placed[edges[i].0 as int]
}

/// `rank` numbers the nodes so that every edge increases strictly.
pub open spec fn rank_ok(edges: Seq<(usize, usize)>, rank: spec_fn(int) -> int) -> bool {
    forall|i: int|
        0 <= i < edges.len() ==> rank((#[trigger] edges[i]).0 as int) < rank(edges[i].1 as int)
}

/// The edge relation admits a strictly increasing numbering — equivalently,
/// it has no cycle.
pub open spec fn acyclic(edges: Seq<(usize, usize)>) -> bool {
    exists|rank: spec_fn(int) -> int| #[trigger] rank_ok(edges, rank)
}

/// Among the unmarked nodes below `k` there is one of minimal rank.
proof fn scan_min(placed: Seq<bool>, rank: spec_fn(int) -> int, k: int) -> (u: int)
    requires
        1 <= k <= placed.len(),
        exists|i: int| 0 <= i < k && !placed[i],
    ensures
        0 <= u < k,
        !placed[u],
        forall|i: int| 0 <= i < k && !placed[i] ==> rank(u) <= rank(i),
    decreases k,
{
    if k == 1 {
        0
    } else if !placed[k - 1] {
        if exists|i: int| 0 <= i < k - 1 && !placed[i] {
            let u0 = scan_min(placed, rank, k - 1);
            if rank(u0) <= rank(k - 1) {
                u0
            } else {
                k - 1
            }
        } else {
            k - 1
        }
    } else {
        let i0 = choose|i: int| 0 <= i < k && !placed[i];
        assert(0 <= i0 < k - 1);
        let u0 = scan_min(placed, rank, k - 1);
        u0
    }
}

/// When every unmarked node keeps an unmarked dependency and at least one
/// node is unmarked, no strictly increasing numbering can exist: the
/// minimal-rank unmarked node would need a smaller-ranked unmarked source.
proof fn lemma_stuck_means_cycle(edges: Seq<(usize, usize)>, placed: Seq<bool>)
    requires
        forall|i: int|
            0 <= i < edges.len() ==> (#[trigger] edges[i]).0 < placed.len() && edges[i].1
                < placed.len(),
        exists|w: int| 0 <= w < placed.len() && !placed[w],
        forall|w: int|
            0 <= w < placed.len() && !placed[w] ==> has_unplaced_dep(edges, placed, w),
    ensures
        !acyclic(edges),
{
    if acyclic(edges) {
        let rank = choose|rank: spec_fn(int) -> int| rank_ok(edges, rank);
        let u = scan_min(placed, rank, placed.len() as int);
        assert(has_unplaced_dep(edges, placed, u));
        let i = choose|i: int|
            0 <= i < edges.len() && (#[trigger] edges[i]).1 == u && !placed[edges[i].0 as int];
        assert(rank(edges[i].0 as int) < rank(u));
        assert(rank(u) <= rank(edges[i].0 as int));
        assert(false);
    }
}

/// Backward reachability from the target nodes: the resulting mark vector
/// marks exactly the least dependency-closed set containing the targets —
/// all their ancestors, themselves included.
fn find_required_nodes(graph: &GraphInner, target_tensors: &Vec<GraphTensor>) -> (req: Vec<bool>)
    requires
        graph.wf(),
        forall|t: int|
            0 <= t < target_tensors@.len() ==> (#[trigger] target_tensors@[t]).node_id
                < graph.ops@.len(),
    ensures
        req@.len() == graph.ops@.len(),
        forall|t: int|
            0 <= t < target_tensors@.len() ==> req@[(#[trigger] target_tensors@[t]).node_id as int],
        closed_under_deps(graph.edges@, marked_set(req@)),
        forall|s: Set<int>|
            ((forall|t: int|
                0 <= t < target_tensors@.len() ==> s.contains(
                    (#[trigger] target_tensors@[t]).node_id as int,
                )) && #[trigger] closed_under_deps(graph.edges@, s)) ==> marked_set(
                req@,
            ).subset_of(s),
{
    let ghost es = graph.edges@;
    let n = graph.ops.len();
    let mut req: Vec<bool> = Vec::new();
    while req.len() < n
        invariant
            req@.len() <= n,
            forall|v: int| 0 <= v < req@.len() ==> !req@[v],
        decreases n - req@.len(),
    {
        req.push(false);
    }
    let mut stack: Vec<usize> = Vec::new();
    let mut t: usize = 0;
    while t < target_tensors.len()
        invariant
            t <= target_tensors@.len(),
            graph.wf(),
            n == graph.ops@.len(),
            graph.edges@ == es,
            forall|j: int|
                0 <= j < target_tensors@.len() ==> (#[trigger] target_tensors@[j]).node_id < n,
            req@.len() == n,
            forall|k: int|
                0 <= k < stack@.len() ==> (#[trigger] stack@[k]) < n && req@[stack@[k] as int],
            forall|i: int|
                0 <= i < es.len() && req@[(#[trigger] es[i]).1 as int] ==> req@[es[i].0 as int]
                    || stack@.contains(es[i].1),
            forall|j: int|
                0 <= j < t ==> req@[(#[trigger] target_tensors@[j]).node_id as int],
            forall|s: Set<int>|
                ((forall|j: int|
                    0 <= j < target_tensors@.len() ==> s.contains(
                        (#[trigger] target_tensors@[j]).node_id as int,
                    )) && #[trigger] closed_under_deps(es, s)) ==> marked_set(req@).subset_of(s),
        decreases target_tensors@.len() - t,
    {
        let id = target_tensors[t].node_id;
        if !req[id] {
            let ghost before = req@;
            let ghost stack_before = stack@;
            req[id] = true;
            stack.push(id);
            proof {
                assert(marked_set(req@) =~= marked_set(before).insert(id as int));
                assert forall|i: int|
                    0 <= i < es.len() && req@[(#[trigger] es[i]).1 as int] implies req@[
                    es[i].0 as int
                ] || stack@.contains(es[i].1) by {
                    if es[i].1 == id {
                        assert(stack@[stack@.len() - 1] == id);
                    } else {
                        assert(before[es[i].1 as int]);
                        if !before[es[i].0 as int] {
                            let k = choose|k: int|
                                0 <= k < stack_before.len() && stack_before[k] == es[i].1;
                            assert(stack@[k] == es[i].1);
                        }
                    }
                }
            }
        }
        t = t + 1;
    }
    while stack.len() > 0
        invariant
            graph.wf(),
            n == graph.ops@.len(),
            graph.edges@ == es,
            req@.len() == n,
            forall|j: int|
                0 <= j < target_tensors@.len() ==> (#[trigger] target_tensors@[j]).node_id < n,
            forall|k: int|
                0 <= k < stack@.len() ==> (#[trigger] stack@[k]) < n && req@[stack@[k] as int],
            forall|i: int|
                0 <= i < es.len() && req@[(#[trigger] es[i]).1 as int] ==> req@[es[i].0 as int]
                    || stack@.contains(es[i].1),
            forall|j: int|
                0 <= j < target_tensors@.len() ==> req@[
                    (#[trigger] target_tensors@[j]).node_id as int
                ],
            forall|s: Set<int>|
                ((forall|j: int|
                    0 <= j < target_tensors@.len() ==> s.contains(
                        (#[trigger] target_tensors@[j]).node_id as int,
                    )) && #[trigger] closed_under_deps(es, s)) ==> marked_set(req@).subset_of(s),
        decreases 2 * count_false(req@) + stack@.len(),
    {
        let ghost m_start = 2 * count_false(req@) + stack@.len();
        let ghost stack_before = stack@;
        let v = match stack.pop() {
            Some(v) => v,
            None => unreached(),
        };
        proof {
            assert forall|i: int|
                0 <= i < es.len() && req@[(#[trigger] es[i]).1 as int] implies req@[
                es[i].0 as int
            ] || stack@.contains(es[i].1) || (es[i].1 == v && i >= 0) by {
                if es[i].1 != v && !req@[es[i].0 as int] {
                    let k = choose|k: int|
                        0 <= k < stack_before.len() && stack_before[k] == es[i].1;
                    assert(stack_before[stack_before.len() - 1] == v);
                    assert(k < stack_before.len() - 1);
                    assert(stack@[k] == es[i].1);
                }
            }
        }
        let mut ei: usize = 0;
        let ne = graph.edges.len();
        while ei < ne
            invariant
                graph.wf(),
                n == graph.ops@.len(),
                graph.edges@ == es,
                ne == es.len(),
                forall|j: int|
                    0 <= j < target_tensors@.len() ==> (#[trigger] target_tensors@[j]).node_id
                        < n,
                ei <= ne,
                v < n,
                req@.len() == n,
                req@[v as int],
                forall|k: int|
                    0 <= k < stack@.len() ==> (#[trigger] stack@[k]) < n && req@[stack@[k] as int],
                forall|i: int|
                    0 <= i < es.len() && req@[(#[trigger] es[i]).1 as int] ==> req@[es[i].0 as int]
                        || stack@.contains(es[i].1) || (es[i].1 == v && i >= ei),
                forall|j: int|
                    0 <= j < target_tensors@.len() ==> req@[
                        (#[trigger] target_tensors@[j]).node_id as int
                    ],
                forall|s: Set<int>|
                    ((forall|j: int|
                        0 <= j < target_tensors@.len() ==> s.contains(
                            (#[trigger] target_tensors@[j]).node_id as int,
                        )) && #[trigger] closed_under_deps(es, s)) ==> marked_set(
                        req@,
                    ).subset_of(s),
                2 * count_false(req@) + stack@.len() < m_start,
            decreases ne - ei,
        {
            let src = graph.edges[ei].0;
            let dst = graph.edges[ei].1;
            proof {
                assert(graph.edges@[ei as int].0 < n && graph.edges@[ei as int].1 < n);
            }
            if dst == v && !req[src] {
                let ghost before = req@;
                let ghost stack_before = stack@;
                proof {
                    lemma_count_false_update(before, src as int);
                }
                req[src] = true;
                stack.push(src);
                proof {
                    assert(marked_set(req@) =~= marked_set(before).insert(src as int));
                    assert forall|j: int|
                        0 <= j < target_tensors@.len() implies req@[
                        (#[trigger] target_tensors@[j]).node_id as int
                    ] by {
                        assert(before[target_tensors@[j].node_id as int]);
                    }
                    assert forall|i: int|
                        0 <= i < es.len() && req@[(#[trigger] es[i]).1 as int] implies req@[
                        es[i].0 as int
                    ] || stack@.contains(es[i].1) || (es[i].1 == v && i >= ei + 1) by {
                        if es[i].1 == src {
                            assert(stack@[stack@.len() - 1] == src);
                        } else if !(es[i].1 == v && i >= ei + 1) && !req@[es[i].0 as int] {
                            if es[i].1 == v && i == ei {
                                assert(es[i].0 == src);
                                assert(false);
                            } else {
                                assert(before[es[i].1 as int]);
                                let k = choose|k: int|
                                    0 <= k < stack_before.len() && stack_before[k] == es[i].1;
                                assert(stack@[k] == es[i].1);
                            }
                        }
                    }
                    assert forall|s: Set<int>|
                        ((forall|j: int|
                            0 <= j < target_tensors@.len() ==> s.contains(
                                (#[trigger] target_tensors@[j]).node_id as int,
                            )) && #[trigger] closed_under_deps(es, s)) implies marked_set(
                        req@,
                    ).subset_of(s) by {
                        assert(marked_set(before).subset_of(s));
                        assert(s.contains(v as int));
                        assert(s.contains(src as int));
                    }
                }
            }
            ei = ei + 1;
        }
    }
    req
}

/// A topological order of all `n` nodes, or the cyclic-graph fault exactly
/// when no such order exists.
fn topo_sort(n: usize, edges: &Vec<(usize, usize)>) -> (r: Result<Vec<usize>, ExecutionError>)
    requires
        forall|i: int|
            0 <= i < edges@.len() ==> (#[trigger] edges@[i]).0 < n && edges@[i].1 < n,
    ensures
        r is Ok <==> acyclic(edges@),
        r matches Ok(order) ==> {
            &&& order@.len() == n
            &&& forall|k: int| 0 <= k < n ==> (#[trigger] order@[k]) < n
            &&& forall|k1: int, k2: int| 0 <= k1 < k2 < n ==> order@[k1] != order@[k2]
            &&& forall|v: usize| v < n ==> #[trigger] order@.contains(v)
            &&& forall|i: int, q: int|
                0 <= i < edges@.len() && 0 <= q < n && (#[trigger] edges@[i]).1 == (
                #[trigger] order@[q]) ==> exists|p: int| 0 <= p < q && order@[p] == edges@[i].0
        },
        r matches Err(e) ==> e == ExecutionError::CyclicGraph,
{
    let ghost es = edges@;
    let mut placed: Vec<bool> = Vec::new();
    while placed.len() < n
        invariant
            placed@.len() <= n,
            forall|v: int| 0 <= v < placed@.len() ==> !placed@[v],
        decreases n - placed@.len(),
    {
        placed.push(false);
    }
    let mut pos: Vec<usize> = Vec::new();
    while pos.len() < n
        invariant
            pos@.len() <= n,
        decreases n - pos@.len(),
    {
        pos.push(0);
    }
    let mut order: Vec<usize> = Vec::new();
    proof {
        lemma_count_all_true(Seq::<bool>::empty());
        assert(count_false(placed@) == n) by {
            lemma_count_false_full(placed@);
        }
    }
    while order.len() < n
        invariant
            edges@ == es,
            forall|i: int| 0 <= i < es.len() ==> (#[trigger] es[i]).0 < n && es[i].1 < n,
            placed@.len() == n,
            pos@.len() == n,
            order@.len() <= n,
            count_false(placed@) + order@.len() == n,
            forall|k: int|
                0 <= k < order@.len() ==> (#[trigger] order@[k]) < n && placed@[order@[k] as int]
                    && pos@[order@[k] as int] == k,
            forall|v: int|
                0 <= v < n && #[trigger] placed@[v] ==> exists|k: int|
                    0 <= k < order@.len() && order@[k] == v,
            forall|i: int, q: int|
                0 <= i < es.len() && 0 <= q < order@.len() && (#[trigger] es[i]).1 == (
                #[trigger] order@[q]) ==> exists|p: int| 0 <= p < q && order@[p] == es[i].0,
        decreases n - order@.len(),
    {
        let mut v: usize = 0;
        let mut found: usize = n;
        while v < n
            invariant
                edges@ == es,
                forall|i: int| 0 <= i < es.len() ==> (#[trigger] es[i]).0 < n && es[i].1 < n,
                n == placed@.len(),
                v <= n,
                found <= n,
                found < n ==> !placed@[found as int] && (forall|i: int|
                    0 <= i < es.len() && (#[trigger] es[i]).1 == found ==> placed@[
                        es[i].0 as int
                    ]),
                found == n ==> forall|w: int|
                    0 <= w < v ==> placed@[w] || has_unplaced_dep(es, placed@, w),
            decreases n - v,
        {
            if found == n && !placed[v] {
                if all_deps_placed(v, edges, &placed) {
                    found = v;
                }
            }
            v = v + 1;
        }
        if found == n {
            proof {
                assert(count_false(placed@) > 0);
                lemma_count_false_nonzero(placed@);
                lemma_stuck_means_cycle(es, placed@);
            }
            return Err(ExecutionError::CyclicGraph);
        }
        let ghost before = placed@;
        let ghost order_before = order@;
        proof {
            lemma_count_false_update(before, found as int);
        }
        pos[found] = order.len();
        placed[found] = true;
        order.push(found);
        proof {
            let len0 = order_before.len() as int;
            assert forall|k: int|
                0 <= k < order@.len() implies (#[trigger] order@[k]) < n && placed@[
                order@[k] as int
            ] && pos@[order@[k] as int] == k by {
                if k < len0 {
                    assert(order@[k] == order_before[k]);
                    assert(before[order_before[k] as int]);
                    assert(order_before[k] != found);
                } else {
                    assert(order@[k] == found);
                }
            }
            assert forall|v: int|
                0 <= v < n && #[trigger] placed@[v] implies exists|k: int|
                    0 <= k < order@.len() && order@[k] == v by {
                if v == found {
                    assert(order@[order@.len() - 1] == v);
                } else {
                    assert(before[v]);
                    let k = choose|k: int| 0 <= k < len0 && order_before[k] == v;
                    assert(order@[k] == v);
                }
            }
            assert forall|i: int, q: int|
                0 <= i < es.len() && 0 <= q < order@.len() && (#[trigger] es[i]).1 == (
                #[trigger] order@[q]) implies exists|p: int|
                0 <= p < q && order@[p] == es[i].0 by {
                if q < len0 {
                    assert(order_before[q] == order@[q]);
                    let p = choose|p: int| 0 <= p < q && order_before[p] == es[i].0;
                    assert(order@[p] == es[i].0);
                } else {
                    assert(order@[q] == found);
                    assert(before[es[i].0 as int]);
                    let k = choose|k: int| 0 <= k < len0 && order_before[k] == es[i].0;
                    assert(order@[k] == es[i].0);
                }
            }
        }
    }
    proof {
        lemma_count_false_zero(placed@);
        assert forall|v: usize| v < n implies #[trigger] order@.contains(v) by {
            assert(placed@[v as int]);
            let k = choose|k: int| 0 <= k < order@.len() && order@[k] == v as int;
            assert(order@[k] == v);
        }
        let rank0 = |w: int|
            if 0 <= w < n {
                pos@[w] as int
            } else {
                0
            };
        assert forall|i: int|
            0 <= i < es.len() implies rank0((#[trigger] es[i]).0 as int) < rank0(
            es[i].1 as int,
        ) by {
            let src = es[i].0 as int;
            let tgt = es[i].1 as int;
            assert(placed@[tgt]);
            let q = choose|k: int| 0 <= k < order@.len() && order@[k] == tgt;
            let p = choose|p: int| 0 <= p < q && order@[p] == es[i].0;
            assert(pos@[src] == p);
            assert(pos@[tgt] == q);
        }
        assert(rank_ok(es, rank0));
        assert(acyclic(es));
    }
    Ok(order)
}

proof fn lemma_count_false_full(s: Seq<bool>)
    requires
        forall|i: int| 0 <= i < s.len() ==> !s[i],
    ensures
        count_false(s) == s.len(),
    decreases s.len(),
{
    if s.len() > 0 {
        lemma_count_false_full(s.drop_last());
    }
}

/// Every dependency of `v` is already placed.
fn all_deps_placed(v: usize, edges: &Vec<(usize, usize)>, placed: &Vec<bool>) -> (r: bool)
    requires
        forall|i: int|
            0 <= i < edges@.len() ==> (#[trigger] edges@[i]).0 < placed@.len() && edges@[i].1
                < placed@.len(),
    ensures
        r == !has_unplaced_dep(edges@, placed@, v as int),
{
    let mut i: usize = 0;
    let ne = edges.len();
    while i < ne
        invariant
            ne == edges@.len(),
            i <= ne,
            forall|j: int|
                0 <= j < edges@.len() ==> (#[trigger] edges@[j]).0 < placed@.len() && edges@[j].1
                    < placed@.len(),
            forall|j: int|
                0 <= j < i && (#[trigger] edges@[j]).1 == v ==> placed@[edges@[j].0 as int],
        decreases ne - i,
    {
        if edges[i].1 == v && !placed[edges[i].0] {
            assert(has_unplaced_dep(edges@, placed@, v as int));
            return false;
        }
        i = i + 1;
    }
    proof {
        false_unplaced_none(edges@, placed@, v as int);
    }
    true
}

proof fn false_unplaced_none(edges: Seq<(usize, usize)>, placed: Seq<bool>, v: int)
    requires
        forall|j: int|
            0 <= j < edges.len() && (#[trigger] edges[j]).1 == v ==> placed[edges[j].0 as int],
    ensures
        !has_unplaced_dep(edges, placed, v),
{
}

/// `v` occurs among the node identifiers of `s`.
pub open spec fn has_node(s: Seq<usize>, v: int) -> bool {
    exists|k: int| 0 <= k < s.len() && (#[trigger] s[k]) == v
}

/// The storage table only binds existing nodes, to well-formed storages.
pub open spec fn storage_ok(store: Map<int, StorageModel>, n: int) -> bool {
    &&& forall|v: int| #[trigger] store.dom().contains(v) ==> 0 <= v < n
    &&& forall|v: int| store.dom().contains(v) ==> model_wf(#[trigger] store[v])
}

/// The compiled, immutable pairing of a graph topology snapshot, an
/// execution order restricted to the required nodes, the pruned storage
/// side-table, and the input and output boundary classification.
#[derive(Debug)]
pub struct GraphExecutable {
    pub ops: Vec<Operation>,
    pub edges: Vec<(usize, usize)>,
    pub execution_plan: Vec<usize>,
    pub tensor_storage: StorageMap,
    pub inputs: Vec<usize>,
    pub outputs: Vec<usize>,
}

impl GraphExecutable {
    /// The required nodes: exactly those on the execution plan.
    pub open spec fn req(&self) -> Set<int> {
        Set::new(|v: int| has_node(self.execution_plan@, v))
    }

    /// A required node bound from the inputs at execution time.
    pub open spec fn is_input_node(&self, v: int) -> bool {
        &&& self.req().contains(v)
        &&& 0 <= v < self.ops@.len()
        &&& self.ops@[v] == Operation::Placeholder
    }

    /// A required node no other required node consumes.
    pub open spec fn is_output_node(&self, v: int) -> bool {
        &&& self.req().contains(v)
        &&& forall|i: int|
            0 <= i < self.edges@.len() && (#[trigger] self.edges@[i]).0 == v ==> !self.req().contains(
                self.edges@[i].1 as int,
            )
    }

    /// Well-formedness: edges join existing nodes; the plan is a duplicate-free
    /// sequence of existing nodes in which every dependency of a planned node
    /// stands earlier on the plan — a topological order of the required
    /// subgraph, dependency-closed; the inputs are exactly the required
    /// placeholders, the outputs exactly the required nodes without required
    /// consumers; and the storage table covers only required nodes.
    pub open spec fn wf(&self) -> bool {
        let n = self.ops@.len();
        &&& forall|i: int|
            0 <= i < self.edges@.len() ==> (#[trigger] self.edges@[i]).0 < n && self.edges@[i].1
                < n
        &&& forall|k: int|
            0 <= k < self.execution_plan@.len() ==> (#[trigger] self.execution_plan@[k]) < n
        &&& forall|k1: int, k2: int|
            0 <= k1 < k2 < self.execution_plan@.len() ==> self.execution_plan@[k1]
                != self.execution_plan@[k2]
        &&& forall|i: int, q: int|
            0 <= i < self.edges@.len() && 0 <= q < self.execution_plan@.len() && (
            #[trigger] self.edges@[i]).1 == (#[trigger] self.execution_plan@[q]) ==> exists|p: int|
                0 <= p < q && self.execution_plan@[p] == self.edges@[i].0
        &&& forall|k: int|
            0 <= k < self.inputs@.len() ==> self.is_input_node((#[trigger] self.inputs@[k]) as int)
        &&& forall|v: int| #[trigger] self.is_input_node(v) ==> has_node(self.inputs@, v)
        &&& forall|k: int|
            0 <= k < self.outputs@.len() ==> self.is_output_node(
                (#[trigger] self.outputs@[k]) as int,
            )
        &&& forall|v: int| #[trigger] self.is_output_node(v) ==> has_node(self.outputs@, v)
        &&& forall|v: int| #[trigger] self.tensor_storage@.dom().contains(v) ==> self.req().contains(v)
        &&& storage_ok(self.tensor_storage@, n as int)
    }

    /// Compile a snapshot of the graph for the given targets: discover the
    /// required nodes (all nodes when no target is given), order the whole
    /// graph topologically — failing exactly on a cyclic graph — restrict
    /// the order and the storage side-table to the required nodes, and
    /// classify the boundary.
    pub fn new(
        graph: &GraphInner,
        tensor_storage: StorageMap,
        target_tensors: &Vec<GraphTensor>,
    ) -> (res: Result<GraphExecutable, ExecutionError>)
        requires
            graph.wf(),
            forall|t: int|
                0 <= t < target_tensors@.len() ==> (#[trigger] target_tensors@[t]).node_id
                    < graph.ops@.len(),
            storage_ok(tensor_storage@, graph.ops@.len() as int),
        ensures
            res is Ok <==> acyclic(graph.edges@),
            res matches Err(e) ==> e == ExecutionError::CyclicGraph,
            res matches Ok(exe) ==> {
                &&& exe.wf()
                &&& exe.ops@ == graph.ops@
                &&& exe.edges@ == graph.edges@
                &&& target_tensors@.len() == 0 ==> exe.req() == Set::new(
                    |v: int| 0 <= v < graph.ops@.len(),
                )
                &&& forall|t: int|
                    0 <= t < target_tensors@.len() ==> exe.req().contains(
                        (#[trigger] target_tensors@[t]).node_id as int,
                    )
                &&& closed_under_deps(graph.edges@, exe.req())
                &&& target_tensors@.len() > 0 ==> (forall|s: Set<int>|
                    ((forall|t: int|
                        0 <= t < target_tensors@.len() ==> s.contains(
                            (#[trigger] target_tensors@[t]).node_id as int,
                        )) && #[trigger] closed_under_deps(graph.edges@, s)) ==> exe.req().subset_of(
                        s,
                    ))
                &&& forall|v: int|
                    #[trigger] exe.tensor_storage@.dom().contains(v) ==> tensor_storage@.dom().contains(v)
                        && exe.req().contains(v) && exe.tensor_storage@[v] == tensor_storage@[v]
                &&& forall|v: int|
                    #[trigger] tensor_storage@.dom().contains(v) && exe.req().contains(v)
                        ==> exe.tensor_storage@.dom().contains(v)
            },
    {
        let ghost es = graph.edges@;
        let n = graph.ops.len();
        let no_targets = target_tensors.len() == 0;
        let req: Vec<bool> = if no_targets {
            let mut all: Vec<bool> = Vec::new();
            while all.len() < n
                invariant
                    all@.len() <= n,
                    forall|v: int| 0 <= v < all@.len() ==> all@[v],
                decreases n - all@.len(),
            {
                all.push(true);
            }
            all
        } else {
            find_required_nodes(graph, target_tensors)
        };
        proof {
            if no_targets {
                assert(closed_under_deps(es, marked_set(req@))) by {
                    assert forall|i: int|
                        0 <= i < es.len() && marked_set(req@).contains(
                            (#[trigger] es[i]).1 as int,
                        ) implies marked_set(req@).contains(es[i].0 as int) by {
                        assert(graph.edges@[i].0 < n);
                    }
                }
            }
        }
        let order = match topo_sort(n, &graph.edges) {
            Ok(o) => o,
            Err(e) => {
                return Err(e);
            },
        };
        let mut plan: Vec<usize> = Vec::new();
        let mut k: usize = 0;
        while k < n
            invariant
                k <= n,
                n == graph.ops@.len(),
                graph.edges@ == es,
                forall|i: int| 0 <= i < es.len() ==> (#[trigger] es[i]).0 < n && es[i].1 < n,
                req@.len() == n,
                closed_under_deps(es, marked_set(req@)),
                order@.len() == n,
                forall|j: int| 0 <= j < n ==> (#[trigger] order@[j]) < n,
                forall|j1: int, j2: int| 0 <= j1 < j2 < n ==> order@[j1] != order@[j2],
                forall|v: usize| v < n ==> #[trigger] order@.contains(v),
                forall|i: int, q: int|
                    0 <= i < es.len() && 0 <= q < n && (#[trigger] es[i]).1 == (
                    #[trigger] order@[q]) ==> exists|p: int| 0 <= p < q && order@[p] == es[i].0,
                forall|p: int|
                    0 <= p < plan@.len() ==> (#[trigger] plan@[p]) < n && req@[plan@[p] as int],
                forall|p: int|
                    0 <= p < plan@.len() ==> exists|j: int|
                        0 <= j < k && order@[j] == (#[trigger] plan@[p]),
                forall|p1: int, p2: int| 0 <= p1 < p2 < plan@.len() ==> plan@[p1] != plan@[p2],
                forall|j: int|
                    0 <= j < k && req@[(#[trigger] order@[j]) as int] ==> has_node(
                        plan@,
                        order@[j] as int,
                    ),
                forall|i: int, q: int|
                    0 <= i < es.len() && 0 <= q < plan@.len() && (#[trigger] es[i]).1 == (
                    #[trigger] plan@[q]) ==> exists|p: int| 0 <= p < q && plan@[p] == es[i].0,
            decreases n - k,
        {
            let v = order[k];
            if req[v] {
                let ghost plan_before = plan@;
                plan.push(v);
                proof {
                    assert forall|p1: int, p2: int|
                        0 <= p1 < p2 < plan@.len() implies plan@[p1] != plan@[p2] by {
                        if p2 == plan@.len() - 1 {
                            if plan@[p1] == v {
                                let j = choose|j: int|
                                    0 <= j < k && order@[j] == plan_before[p1];
                                assert(order@[j] == order@[k as int]);
                                assert(false);
                            }
                        } else {
                            assert(plan_before[p1] != plan_before[p2]);
                        }
                    }
                    assert forall|j: int|
                        0 <= j < k + 1 && req@[(#[trigger] order@[j]) as int] implies has_node(
                        plan@,
                        order@[j] as int,
                    ) by {
                        if j < k {
                            assert(has_node(plan_before, order@[j] as int));
                            let p = choose|p: int|
                                0 <= p < plan_before.len() && (#[trigger] plan_before[p])
                                    == order@[j] as int;
                            assert(plan@[p] == order@[j]);
                        } else {
                            assert(plan@[plan@.len() - 1] == v);
                        }
                    }
                    assert forall|i: int, q: int|
                        0 <= i < es.len() && 0 <= q < plan@.len() && (#[trigger] es[i]).1 == (
                        #[trigger] plan@[q]) implies exists|p: int|
                        0 <= p < q && plan@[p] == es[i].0 by {
                        if q == plan@.len() - 1 {
                            assert(es[i].1 == v);
                            assert(marked_set(req@).contains(v as int));
                            assert(marked_set(req@).contains(es[i].0 as int));
                            let j2 = choose|p: int| 0 <= p < k && order@[p] == es[i].0;
                            assert(req@[(order@[j2]) as int]);
                            assert(has_node(plan_before, es[i].0 as int));
                            let p = choose|p: int|
                                0 <= p < plan_before.len() && (#[trigger] plan_before[p])
                                    == es[i].0 as int;
                            assert(plan@[p] == es[i].0);
                        } else {
                            let p = choose|p: int| 0 <= p < q && plan_before[p] == es[i].0;
                            assert(plan@[p] == es[i].0);
                        }
                    }
                }
            }
            k = k + 1;
        }
        proof {
            assert forall|w: usize| w < n implies (#[trigger] has_node(plan@, w as int) <==> req@[
                w as int
            ]) by {
                if has_node(plan@, w as int) {
                    let p = choose|p: int|
                        0 <= p < plan@.len() && (#[trigger] plan@[p]) == w as int;
                    assert(req@[plan@[p] as int]);
                }
                if req@[w as int] {
                    assert(order@.contains(w));
                    let j = choose|j: int| 0 <= j < order@.len() && (#[trigger] order@[j]) == w;
                    assert(req@[(order@[j]) as int]);
                    assert(has_node(plan@, order@[j] as int));
                }
            }
        }
        let mut inputs: Vec<usize> = Vec::new();
        let mut outputs: Vec<usize> = Vec::new();
        let mut v: usize = 0;
        while v < n
            invariant
                v <= n,
                n == graph.ops@.len(),
                graph.edges@ == es,
                forall|i: int| 0 <= i < es.len() ==> (#[trigger] es[i]).0 < n && es[i].1 < n,
                req@.len() == n,
                forall|w: usize| w < n ==> (#[trigger] has_node(plan@, w as int) <==> req@[w as int]),
                forall|p: int| 0 <= p < plan@.len() ==> (#[trigger] plan@[p]) < n,
                forall|j: int|
                    0 <= j < inputs@.len() ==> (#[trigger] inputs@[j]) < n && req@[
                        inputs@[j] as int
                    ] && graph.ops@[inputs@[j] as int] == Operation::Placeholder,
                forall|w: int|
                    0 <= w < v && req@[w] && graph.ops@[w] == Operation::Placeholder
                        ==> has_node(inputs@, w),
                forall|j: int|
                    0 <= j < outputs@.len() ==> (#[trigger] outputs@[j]) < n && req@[
                        outputs@[j] as int
                    ] && (forall|i: int|
                        0 <= i < es.len() && (#[trigger] es[i]).0 == outputs@[j] ==> !req@[
                            es[i].1 as int
                        ]),
                forall|w: int|
                    0 <= w < v && req@[w] && (forall|i: int|
                        0 <= i < es.len() && (#[trigger] es[i]).0 == w ==> !req@[es[i].1 as int])
                        ==> has_node(outputs@, w),
            decreases n - v,
        {
            if req[v] {
                let is_ph = match graph.ops[v] {
                    Operation::Placeholder => true,
                    _ => false,
                };
                if is_ph {
                    let ghost before = inputs@;
                    inputs.push(v);
                    proof {
                        assert forall|w: int|
                            0 <= w < v + 1 && req@[w] && graph.ops@[w] == Operation::Placeholder
                                implies has_node(inputs@, w) by {
                            if w < v {
                                let j = choose|j: int|
                                    0 <= j < before.len() && (#[trigger] before[j]) == w;
                                assert(inputs@[j] == before[j]);
                            } else {
                                assert(inputs@[inputs@.len() - 1] == v);
                            }
                        }
                    }
                }
                let has_out = has_required_consumer(v, &graph.edges, &req);
                if !has_out {
                    let ghost before = outputs@;
                    outputs.push(v);
                    proof {
                        assert forall|w: int|
                            0 <= w < v + 1 && req@[w] && (forall|i: int|
                                0 <= i < es.len() && (#[trigger] es[i]).0 == w ==> !req@[
                                    es[i].1 as int
                                ]) implies has_node(outputs@, w) by {
                            if w < v {
                                let j = choose|j: int|
                                    0 <= j < before.len() && (#[trigger] before[j]) == w;
                                assert(outputs@[j] == before[j]);
                            } else {
                                assert(outputs@[outputs@.len() - 1] == v);
                            }
                        }
                    }
                }
            }
            v = v + 1;
        }
        let mut pruned = StorageMap::new();
        let mut w: usize = 0;
        while w < n
            invariant
                w <= n,
                n == graph.ops@.len(),
                req@.len() == n,
                storage_ok(tensor_storage@, n as int),
                forall|x: int|
                    #[trigger] pruned@.dom().contains(x) ==> 0 <= x < w
                        && tensor_storage@.dom().contains(x) && req@[x] && pruned@[x]
                        == tensor_storage@[x],
                forall|x: int|
                    0 <= x < w && #[trigger] tensor_storage@.dom().contains(x) && req@[x]
                        ==> pruned@.dom().contains(x),
            decreases n - w,
        {
            if req[w] {
                match tensor_storage.get(w) {
                    Some(s) => {
                        let c = s.clone();
                        pruned.insert(w, c);
                    },
                    None => {},
                }
            }
            w = w + 1;
        }
        let exe = GraphExecutable {
            ops: clone_vec_copy(&graph.ops),
            edges: clone_vec_copy(&graph.edges),
            execution_plan: plan,
            tensor_storage: pruned,
            inputs,
            outputs,
        };
        proof {
            assert(exe.execution_plan@ == plan@);
            assert forall|x: int| #[trigger] exe.req().contains(x) implies 0 <= x < n && req@[
                x
            ] by {
                let p = choose|p: int|
                    0 <= p < plan@.len() && (#[trigger] plan@[p]) == x;
                assert(req@[plan@[p] as int]);
            }
            assert forall|x: int| 0 <= x < n && #[trigger] req@[x] implies exe.req().contains(
                x,
            ) by {
                assert(has_node(plan@, x));
            }
            assert forall|i: int| 0 <= i < es.len() implies (#[trigger] exe.edges@[i]) == es[
                i
            ] by {}
            assert forall|x: int| 0 <= x < n implies (#[trigger] exe.ops@[x]) == graph.ops@[
                x
            ] by {}
            assert(exe.wf()) by {
                assert forall|kk: int|
                    0 <= kk < exe.inputs@.len() implies exe.is_input_node(
                    (#[trigger] exe.inputs@[kk]) as int,
                ) by {
                    assert(req@[exe.inputs@[kk] as int]);
                }
                assert forall|x: int| #[trigger] exe.is_input_node(x) implies has_node(
                    exe.inputs@,
                    x,
                ) by {
                    assert(req@[x]);
                }
                assert forall|kk: int|
                    0 <= kk < exe.outputs@.len() implies exe.is_output_node(
                    (#[trigger] exe.outputs@[kk]) as int,
                ) by {
                    assert(req@[exe.outputs@[kk] as int]);
                }
                assert forall|x: int| #[trigger] exe.is_output_node(x) implies has_node(
                    exe.outputs@,
                    x,
                ) by {
                    assert(req@[x]);
                    assert forall|i: int|
                        0 <= i < es.len() && (#[trigger] es[i]).0 == x implies !req@[
                        es[i].1 as int
                    ] by {
                        assert(exe.edges@[i] == es[i]);
                        assert(!exe.req().contains(exe.edges@[i].1 as int));
                        assert(es[i].1 < n);
                    }
                }
            }
            if no_targets {
                assert(exe.req() =~= Set::new(|v: int| 0 <= v < graph.ops@.len()));
            }
            assert(closed_under_deps(es, exe.req())) by {
                assert forall|i: int|
                    0 <= i < es.len() && exe.req().contains((#[trigger] es[i]).1 as int) implies
                    exe.req().contains(es[i].0 as int) by {
                    assert(marked_set(req@).contains(es[i].1 as int));
                    assert(marked_set(req@).contains(es[i].0 as int));
                }
            }
            if target_tensors@.len() > 0 {
                assert forall|s: Set<int>|
                    ((forall|t: int|
                        0 <= t < target_tensors@.len() ==> s.contains(
                            (#[trigger] target_tensors@[t]).node_id as int,
                        )) && #[trigger] closed_under_deps(graph.edges@, s)) implies
                    exe.req().subset_of(s) by {
                    assert(marked_set(req@).subset_of(s));
                    assert forall|x: int| exe.req().contains(x) implies s.contains(x) by {
                        assert(marked_set(req@).contains(x));
                    }
                }
            }
        }
        Ok(exe)
    }
}

/// Some edge leads from `v` to a required node.
fn has_required_consumer(v: usize, edges: &Vec<(usize, usize)>, req: &Vec<bool>) -> (r: bool)
    requires
        forall|i: int|
            0 <= i < edges@.len() ==> (#[trigger] edges@[i]).0 < req@.len() && edges@[i].1
                < req@.len(),
    ensures
        r == exists|i: int|
            0 <= i < edges@.len() && (#[trigger] edges@[i]).0 == v && req@[edges@[i].1 as int],
{
    let mut i: usize = 0;
    let ne = edges.len();
    while i < ne
        invariant
            ne == edges@.len(),
            i <= ne,
            forall|j: int|
                0 <= j < edges@.len() ==> (#[trigger] edges@[j]).0 < req@.len() && edges@[j].1
                    < req@.len(),
            forall|j: int|
                0 <= j < i && (#[trigger] edges@[j]).0 == v ==> !req@[edges@[j].1 as int],
        decreases ne - i,
    {
        if edges[i].0 == v && req[edges[i].1] {
            assert(0 <= i < edges@.len() && edges@[i as int].0 == v && req@[
                edges@[i as int].1 as int
            ]);
            return true;
        }
        i = i + 1;
    }
    false
}

/// The incoming sources of node `v`, in edge insertion order — for a binary
/// node built through the graph entry points, left operand then right.
pub open spec fn in_sources(edges: Seq<(usize, usize)>, v: int) -> Seq<usize>
    decreases edges.len(),
{
    if edges.len() == 0 {
        Seq::empty()
    } else {
        let rest = in_sources(edges.drop_last(), v);
        if edges.last().1 == v {
            rest.push(edges.last().0)
        } else {
            rest
        }
    }
}

/// The storage a binary node computes: a 32-bit floating-point buffer over
/// the operands' broadcast shape, each element combining the operand
/// elements its position maps to.
pub open spec fn binary_result<K: ElementKernel>(
    k: K,
    op: Operation,
    a: StorageModel,
    b: StorageModel,
) -> StorageModel {
    let out = bcast_dims(model_shape(a), model_shape(b));
    StorageModel::F32 {
        data: Seq::new(
            prod_of(out) as nat,
            |i: int|
                k.combine_spec(
                    op,
                    model_f32_data(a)[src_offset(model_shape(a), out, i)],
                    model_f32_data(b)[src_offset(model_shape(b), out, i)],
                ),
        ),
        shape: out,
    }
}

/// The outcome of running a plan over a storage table: finished; faulted
/// with the table as it stood; or aborted — an unsupported element kind, or
/// a broadcast shape beyond the machine, conditions execution must exclude.
#[verifier::ext_equal]
pub enum RunState {
    Done { store: Map<int, StorageModel> },
    Faulted { store: Map<int, StorageModel> },
    Aborted,
}

/// The effect of executing one node: leaves keep their resident value; a
/// binary node needs exactly two incoming edges, both sources resident and
/// their shapes broadcast-compatible — else the step faults — and writes its
/// computed storage under its own identifier.
pub open spec fn step_node<K: ElementKernel>(
    k: K,
    ops: Seq<Operation>,
    edges: Seq<(usize, usize)>,
    store: Map<int, StorageModel>,
    v: int,
) -> RunState {
    if !(0 <= v < ops.len()) || is_leaf_op(ops[v]) {
        RunState::Done { store }
    } else {
        let srcs = in_sources(edges, v);
        if srcs.len() != 2 {
            RunState::Faulted { store }
        } else if !store.dom().contains(srcs[0] as int) || !store.dom().contains(
            srcs[1] as int,
        ) {
            RunState::Faulted { store }
        } else {
            let a = store[srcs[0] as int];
            let b = store[srcs[1] as int];
            if !bcast_compat(model_shape(a), model_shape(b)) {
                RunState::Faulted { store }
            } else if !(a is F32) || !(b is F32) {
                RunState::Aborted
            } else if !dims_wf(bcast_dims(model_shape(a), model_shape(b))) {
                RunState::Aborted
            } else {
                RunState::Done { store: store.insert(v, binary_result(k, ops[v], a, b)) }
            }
        }
    }
}

/// Execute the plan nodes strictly in sequence, threading the storage table.
pub open spec fn run_plan<K: ElementKernel>(
    k: K,
    ops: Seq<Operation>,
    edges: Seq<(usize, usize)>,
    store: Map<int, StorageModel>,
    plan: Seq<usize>,
) -> RunState
    decreases plan.len(),
{
    if plan.len() == 0 {
        RunState::Done { store }
    } else {
        match step_node(k, ops, edges, store, plan[0] as int) {
            RunState::Done { store: s2 } => run_plan(k, ops, edges, s2, plan.drop_first()),
            other => other,
        }
    }
}

/// The storage table overwritten with one binding per input node, in input
/// order.
pub open spec fn bound_store(
    store: Map<int, StorageModel>,
    inputs: Seq<usize>,
    data: Map<int, StorageModel>,
) -> Map<int, StorageModel>
    decreases inputs.len(),
{
    if inputs.len() == 0 {
        store
    } else {
        bound_store(store, inputs.drop_last(), data).insert(
            inputs.last() as int,
            data[inputs.last() as int],
        )
    }
}

/// The index of the first input node the data does not bind.
pub open spec fn first_missing(inputs: Seq<usize>, data: Map<int, StorageModel>) -> Option<int>
    decreases inputs.len(),
{
    if inputs.len() == 0 {
        Option::None
    } else if !data.dom().contains(inputs[0] as int) {
        Option::Some(0int)
    } else {
        match first_missing(inputs.drop_first(), data) {
            Option::Some(j) => Option::Some(j + 1),
            Option::None => Option::None,
        }
    }
}

/// The restriction of a finished storage table to the declared outputs.
pub open spec fn output_map(outputs: Seq<usize>, store: Map<int, StorageModel>) -> Map<
    int,
    StorageModel,
> {
    Map::new(|v: int| store.dom().contains(v) && has_node(outputs, v), |v: int| store[v])
}

proof fn lemma_first_missing_at(inputs: Seq<usize>, data: Map<int, StorageModel>, t: int)
    requires
        0 <= t < inputs.len(),
        forall|j: int| 0 <= j < t ==> data.dom().contains((#[trigger] inputs[j]) as int),
        !data.dom().contains(inputs[t] as int),
    ensures
        first_missing(inputs, data) == Option::Some(t),
    decreases t,
{
    if t > 0 {
        lemma_first_missing_at(inputs.drop_first(), data, t - 1);
    }
}

proof fn lemma_first_missing_none(inputs: Seq<usize>, data: Map<int, StorageModel>)
    requires
        forall|j: int|
            0 <= j < inputs.len() ==> data.dom().contains((#[trigger] inputs[j]) as int),
    ensures
        first_missing(inputs, data) is None,
    decreases inputs.len(),
{
    if inputs.len() > 0 {
        assert(data.dom().contains(inputs[0] as int));
        lemma_first_missing_none(inputs.drop_first(), data);
    }
}

/// Replacing the storage table with one that still covers only required
/// nodes, by well-formed storages, keeps an executable well-formed: every
/// other clause speaks only of the topology, plan and boundary, which are
/// untouched.
proof fn lemma_wf_storage_update(pre: GraphExecutable, post: GraphExecutable)
    requires
        pre.wf(),
        post.ops@ == pre.ops@,
        post.edges@ == pre.edges@,
        post.execution_plan@ == pre.execution_plan@,
        post.inputs@ == pre.inputs@,
        post.outputs@ == pre.outputs@,
        forall|v: int|
            #[trigger] post.tensor_storage@.dom().contains(v) ==> pre.req().contains(v),
        storage_ok(post.tensor_storage@, post.ops@.len() as int),
    ensures
        post.wf(),
{
    assert(post.req() =~= pre.req());
    assert forall|k: int|
        0 <= k < post.inputs@.len() implies post.is_input_node(
        (#[trigger] post.inputs@[k]) as int,
    ) by {
        assert(pre.is_input_node(pre.inputs@[k] as int));
    }
    assert forall|v: int| #[trigger] post.is_input_node(v) implies has_node(
        post.inputs@,
        v,
    ) by {
        assert(pre.is_input_node(v));
    }
    assert forall|k: int|
        0 <= k < post.outputs@.len() implies post.is_output_node(
        (#[trigger] post.outputs@[k]) as int,
    ) by {
        assert(pre.is_output_node(pre.outputs@[k] as int));
        assert forall|i: int|
            0 <= i < post.edges@.len() && (#[trigger] post.edges@[i]).0 == post.outputs@[
                k
            ] implies !post.req().contains(post.edges@[i].1 as int) by {
            assert(!pre.req().contains(pre.edges@[i].1 as int));
        }
    }
    assert forall|v: int| #[trigger] post.is_output_node(v) implies has_node(
        post.outputs@,
        v,
    ) by {
        assert(pre.is_output_node(v)) by {
            assert forall|i: int|
                0 <= i < pre.edges@.len() && (#[trigger] pre.edges@[i]).0 == v implies !pre.req().contains(
                pre.edges@[i].1 as int,
            ) by {
                assert(!post.req().contains(post.edges@[i].1 as int));
            }
        }
    }
}

impl GraphExecutable {
    /// The declared input (placeholder) nodes, read-only.
    pub fn inputs(&self) -> (r: &Vec<usize>)
        ensures
            r@ == self.inputs@,
    {
        &self.inputs
    }

    /// The declared output nodes, read-only.
    pub fn outputs(&self) -> (r: &Vec<usize>)
        ensures
            r@ == self.outputs@,
    {
        &self.outputs
    }

    /// Run the compiled plan against the given input bindings: bind every
    /// declared input — the first unbound one is a `MissingInput` fault —
    /// then execute the node order strictly in sequence, skipping leaves and
    /// dispatching each binary node to its kernel, and finally collect the
    /// declared outputs. Faults surface as explicit results; a failed run
    /// returns no partial output mapping.
    pub fn execute<K: ElementKernel>(&mut self, input_data: &StorageMap, kernel: &K) -> (r:
        Result<StorageMap, ExecutionError>)
        requires
            old(self).wf(),
            forall|v: int|
                input_data@.dom().contains(v) ==> model_wf(#[trigger] input_data@[v]),
            (forall|j: int|
                0 <= j < old(self).inputs@.len() ==> input_data@.dom().contains(
                    (#[trigger] old(self).inputs@[j]) as int,
                )) ==> !(run_plan(
                *kernel,
                old(self).ops@,
                old(self).edges@,
                bound_store(old(self).tensor_storage@, old(self).inputs@, input_data@),
                old(self).execution_plan@,
            ) is Aborted),
        ensures
            final(self).ops@ == old(self).ops@,
            final(self).edges@ == old(self).edges@,
            final(self).execution_plan@ == old(self).execution_plan@,
            final(self).inputs@ == old(self).inputs@,
            final(self).outputs@ == old(self).outputs@,
            final(self).wf(),
            match first_missing(old(self).inputs@, input_data@) {
                Option::Some(j) => r matches Err(e) && e == ExecutionError::MissingInput(
                    old(self).inputs@[j],
                ) && final(self).tensor_storage@ == bound_store(
                    old(self).tensor_storage@,
                    old(self).inputs@.take(j),
                    input_data@,
                ),
                Option::None => {
                    let s0 = bound_store(
                        old(self).tensor_storage@,
                        old(self).inputs@,
                        input_data@,
                    );
                    match run_plan(
                        *kernel,
                        old(self).ops@,
                        old(self).edges@,
                        s0,
                        old(self).execution_plan@,
                    ) {
                        RunState::Done { store } => r matches Ok(out)
                            && final(self).tensor_storage@ == store && out@ == output_map(
                            old(self).outputs@,
                            store,
                        ),
                        RunState::Faulted { store } => r matches Err(e) && e
                            == ExecutionError::InvalidOperation && final(self).tensor_storage@
                            == store,
                        RunState::Aborted => true,
                    }
                },
            },
    {
        let ghost store_orig = self.tensor_storage@;
        let ghost data = input_data@;
        let ghost inputs_seq = self.inputs@;
        let ghost ops_seq = self.ops@;
        let ghost es = self.edges@;
        let ghost plan_seq = self.execution_plan@;
        let ghost n = self.ops@.len() as int;
        let num_in = self.inputs.len();
        let mut t: usize = 0;
        while t < num_in
            invariant
                old(self).wf(),
                t <= num_in,
                num_in == inputs_seq.len(),
                self.ops@ == ops_seq,
                self.edges@ == es,
                self.execution_plan@ == plan_seq,
                self.inputs@ == inputs_seq,
                self.outputs@ == old(self).outputs@,
                ops_seq == old(self).ops@,
                es == old(self).edges@,
                plan_seq == old(self).execution_plan@,
                inputs_seq == old(self).inputs@,
                store_orig == old(self).tensor_storage@,
                data == input_data@,
                n == ops_seq.len() as int,
                forall|v: int| data.dom().contains(v) ==> model_wf(#[trigger] data[v]),
                self.tensor_storage@ == bound_store(store_orig, inputs_seq.take(t as int), data),
                forall|j: int|
                    0 <= j < t ==> data.dom().contains((#[trigger] inputs_seq[j]) as int),
                forall|v: int|
                    #[trigger] self.tensor_storage@.dom().contains(v)
                        ==> old(self).req().contains(v),
                storage_ok(self.tensor_storage@, n),
            decreases num_in - t,
        {
            let node = self.inputs[t];
            proof {
                assert(old(self).is_input_node(inputs_seq[t as int] as int));
            }
            match input_data.get(node) {
                Some(st) => {
                    let c = st.clone();
                    self.tensor_storage.insert(node, c);
                    proof {
                        assert(inputs_seq.take(t + 1).drop_last() =~= inputs_seq.take(t as int));
                        assert(inputs_seq.take(t + 1).last() == inputs_seq[t as int]);
                    }
                },
                None => {
                    proof {
                        lemma_first_missing_at(inputs_seq, data, t as int);
                        lemma_wf_storage_update(*old(self), *self);
                    }
                    return Err(ExecutionError::MissingInput(node));
                },
            }
            t = t + 1;
        }
        proof {
            lemma_first_missing_none(inputs_seq, data);
            assert(inputs_seq.take(num_in as int) =~= inputs_seq);
        }
        let ghost s0 = self.tensor_storage@;
        proof {
            assert(plan_seq.skip(0) =~= plan_seq);
        }
        let np = self.execution_plan.len();
        let mut i: usize = 0;
        while i < np
            invariant
                old(self).wf(),
                i <= np,
                np == plan_seq.len(),
                self.ops@ == ops_seq,
                self.edges@ == es,
                self.execution_plan@ == plan_seq,
                self.inputs@ == inputs_seq,
                self.outputs@ == old(self).outputs@,
                ops_seq == old(self).ops@,
                es == old(self).edges@,
                plan_seq == old(self).execution_plan@,
                inputs_seq == old(self).inputs@,
                n == ops_seq.len() as int,
                data == input_data@,
                first_missing(inputs_seq, data) is None,
                s0 == bound_store(old(self).tensor_storage@, inputs_seq, data),
                run_plan(*kernel, ops_seq, es, s0, plan_seq) == run_plan(
                    *kernel,
                    ops_seq,
                    es,
                    self.tensor_storage@,
                    plan_seq.skip(i as int),
                ),
                !(run_plan(*kernel, ops_seq, es, s0, plan_seq) is Aborted),
                forall|v: int|
                    #[trigger] self.tensor_storage@.dom().contains(v)
                        ==> old(self).req().contains(v),
                storage_ok(self.tensor_storage@, n),
            decreases np - i,
        {
            let node = self.execution_plan[i];
            proof {
                assert(plan_seq[i as int] < ops_seq.len());
                assert(plan_seq.skip(i as int)[0] == plan_seq[i as int]);
                assert(plan_seq.skip(i as int).drop_first() =~= plan_seq.skip(i + 1));
            }
            let op = self.ops[node];
            let ghost cur = self.tensor_storage@;
            let ghost step = step_node(*kernel, ops_seq, es, cur, node as int);
            let is_leaf = match op {
                Operation::Constant => true,
                Operation::Variable => true,
                Operation::Placeholder => true,
                _ => false,
            };
            if is_leaf {
                proof {
                    assert(step == RunState::Done { store: cur });
                }
            } else {
                let mut srcs: Vec<usize> = Vec::new();
                let ne = self.edges.len();
                let mut ei: usize = 0;
                proof {
                    assert(es.take(0) =~= Seq::<(usize, usize)>::empty());
                }
                while ei < ne
                    invariant
                        ei <= ne,
                        ne == es.len(),
                        self.edges@ == es,
                        srcs@ == in_sources(es.take(ei as int), node as int),
                    decreases ne - ei,
                {
                    let e = self.edges[ei];
                    proof {
                        assert(es.take(ei + 1).drop_last() =~= es.take(ei as int));
                        assert(es.take(ei + 1).last() == es[ei as int]);
                    }
                    if e.1 == node {
                        srcs.push(e.0);
                    }
                    ei = ei + 1;
                }
                proof {
                    assert(es.take(ne as int) =~= es);
                    assert(srcs@ == in_sources(es, node as int));
                }
                if srcs.len() != 2 {
                    proof {
                        assert(step == RunState::Faulted { store: cur });
                        lemma_wf_storage_update(*old(self), *self);
                    }
                    return Err(ExecutionError::InvalidOperation);
                }
                let s_a = srcs[0];
                let s_b = srcs[1];
                let lhs = match self.tensor_storage.get(s_a) {
                    Some(x) => x,
                    None => {
                        proof {
                            assert(step == RunState::Faulted { store: cur });
                            lemma_wf_storage_update(*old(self), *self);
                        }
                        return Err(ExecutionError::InvalidOperation);
                    },
                };
                let rhs = match self.tensor_storage.get(s_b) {
                    Some(x) => x,
                    None => {
                        proof {
                            assert(step == RunState::Faulted { store: cur });
                            lemma_wf_storage_update(*old(self), *self);
                        }
                        return Err(ExecutionError::InvalidOperation);
                    },
                };
                let ghost a = cur[s_a as int];
                let ghost b = cur[s_b as int];
                let lhs_shape = Shape::new(clone_dims(lhs.shape()));
                let rhs_shape = Shape::new(clone_dims(rhs.shape()));
                let output_shape = match lhs_shape.broadcast_with(&rhs_shape) {
                    Ok(sh) => sh,
                    Err(_) => {
                        proof {
                            assert(step == RunState::Faulted { store: cur });
                            lemma_wf_storage_update(*old(self), *self);
                        }
                        return Err(ExecutionError::InvalidOperation);
                    },
                };
                proof {
                    assert(!(step is Aborted));
                    assert(a is F32 && b is F32 && dims_wf(bcast_dims(
                        model_shape(a),
                        model_shape(b),
                    )));
                    assert(model_wf(a) && model_wf(b));
                }
                let result = match op {
                    Operation::Add => cpu_add(kernel, lhs, rhs, &output_shape),
                    Operation::Sub => cpu_sub(kernel, lhs, rhs, &output_shape),
                    Operation::Mul => cpu_mul(kernel, lhs, rhs, &output_shape),
                    Operation::Div => cpu_div(kernel, lhs, rhs, &output_shape),
                    _ => unreached(),
                };
                proof {
                    let expected = binary_result(*kernel, ops_seq[node as int], a, b);
                    assert(op == ops_seq[node as int]);
                    assert(model_f32_data(result@) =~= Seq::new(
                        prod_of(output_shape@) as nat,
                        |x: int|
                            kernel.combine_spec(
                                op,
                                model_f32_data(a)[src_offset(model_shape(a), output_shape@, x)],
                                model_f32_data(b)[src_offset(model_shape(b), output_shape@, x)],
                            ),
                    ));
                    assert(result@ =~= expected);
                }
                self.tensor_storage.insert(node, result);
                proof {
                    assert(step == RunState::Done { store: self.tensor_storage@ });
                    assert forall|v: int|
                        #[trigger] self.tensor_storage@.dom().contains(v) implies old(
                        self,
                    ).req().contains(v) by {
                        if v != node as int {
                            assert(cur.dom().contains(v));
                        } else {
                            assert(has_node(plan_seq, v));
                        }
                    }
                    assert(storage_ok(self.tensor_storage@, n)) by {
                        assert forall|v: int|
                            self.tensor_storage@.dom().contains(v) implies model_wf(
                            #[trigger] self.tensor_storage@[v],
                        ) by {
                            if v != node as int {
                                assert(cur.dom().contains(v));
                                assert(model_wf(cur[v]));
                            }
                        }
                        assert forall|v: int|
                            #[trigger] self.tensor_storage@.dom().contains(v) implies 0 <= v
                            < n by {
                            if v != node as int {
                                assert(cur.dom().contains(v));
                            }
                        }
                    }
                }
            }
            i = i + 1;
        }
        let ghost sf = self.tensor_storage@;
        proof {
            assert(plan_seq.skip(np as int) =~= Seq::<usize>::empty());
            assert(run_plan(*kernel, ops_seq, es, s0, plan_seq) == RunState::Done {
                store: sf,
            });
        }
        let ghost outputs_seq = self.outputs@;
        let mut results = StorageMap::new();
        let num_out = self.outputs.len();
        let mut oi: usize = 0;
        while oi < num_out
            invariant
                old(self).wf(),
                oi <= num_out,
                num_out == outputs_seq.len(),
                self.outputs@ == outputs_seq,
                outputs_seq == old(self).outputs@,
                self.tensor_storage@ == sf,
                self.ops@ == ops_seq,
                self.edges@ == es,
                self.execution_plan@ == plan_seq,
                self.inputs@ == inputs_seq,
                ops_seq == old(self).ops@,
                es == old(self).edges@,
                plan_seq == old(self).execution_plan@,
                inputs_seq == old(self).inputs@,
                n == ops_seq.len() as int,
                data == input_data@,
                first_missing(inputs_seq, data) is None,
                s0 == bound_store(old(self).tensor_storage@, inputs_seq, data),
                run_plan(*kernel, ops_seq, es, s0, plan_seq) == (RunState::Done { store: sf }),
                forall|v: int|
                    #[trigger] sf.dom().contains(v) ==> old(self).req().contains(v),
                storage_ok(sf, n),
                forall|v: int|
                    #[trigger] results@.dom().contains(v) ==> sf.dom().contains(v) && has_node(
                        outputs_seq.take(oi as int),
                        v,
                    ) && results@[v] == sf[v],
                forall|j: int|
                    0 <= j < oi && sf.dom().contains((#[trigger] outputs_seq[j]) as int)
                        ==> results@.dom().contains(outputs_seq[j] as int),
            decreases num_out - oi,
        {
            let node = self.outputs[oi];
            let ghost res_before = results@;
            match self.tensor_storage.get(node) {
                Some(st) => {
                    let c = st.clone();
                    results.insert(node, c);
                    proof {
                        assert forall|v: int|
                            #[trigger] results@.dom().contains(v) implies sf.dom().contains(v)
                            && has_node(outputs_seq.take(oi + 1), v) && results@[v] == sf[
                            v
                        ] by {
                            if v == node as int {
                                assert(outputs_seq.take(oi + 1)[oi as int] == node);
                            } else {
                                assert(res_before.dom().contains(v));
                                let kx = choose|kx: int|
                                    0 <= kx < outputs_seq.take(oi as int).len() && (
                                    #[trigger] outputs_seq.take(oi as int)[kx]) == v;
                                assert(outputs_seq.take(oi + 1)[kx] == v);
                            }
                        }
                    }
                },
                None => {
                    proof {
                        assert forall|v: int|
                            #[trigger] results@.dom().contains(v) implies sf.dom().contains(v)
                            && has_node(outputs_seq.take(oi + 1), v) && results@[v] == sf[
                            v
                        ] by {
                            let kx = choose|kx: int|
                                0 <= kx < outputs_seq.take(oi as int).len() && (
                                #[trigger] outputs_seq.take(oi as int)[kx]) == v;
                            assert(outputs_seq.take(oi + 1)[kx] == v);
                        }
                    }
                },
            }
            oi = oi + 1;
        }
        proof {
            assert(outputs_seq.take(num_out as int) =~= outputs_seq);
            assert(results@ =~= output_map(outputs_seq, sf)) by {
                assert forall|v: int|
                    #[trigger] output_map(outputs_seq, sf).dom().contains(v) implies results@.dom().contains(
                    v,
                ) by {
                    let kx = choose|kx: int|
                        0 <= kx < outputs_seq.len() && (#[trigger] outputs_seq[kx]) == v;
                    assert(sf.dom().contains(outputs_seq[kx] as int));
                }
            }
            lemma_wf_storage_update(*old(self), *self);
        }
        Ok(results)
    }
}

/// A binary-kind node on the plan — the only nodes whose storage execution
/// overwrites.
pub open spec fn is_plan_binary(ops: Seq<Operation>, plan: Seq<usize>, v: int) -> bool {
    has_node(plan, v) && 0 <= v < ops.len() && is_binary_op(ops[v])
}

/// The two tables bind `v` alike: present in one exactly when present in the
/// other, and then with the same value.
pub open spec fn maps_agree_at(
    s1: Map<int, StorageModel>,
    s2: Map<int, StorageModel>,
    v: int,
) -> bool {
    &&& s1.dom().contains(v) <==> s2.dom().contains(v)
    &&& s1.dom().contains(v) ==> s1[v] == s2[v]
}

/// The two tables agree everywhere but possibly at plan binary nodes.
pub open spec fn agree_except_binaries(
    s1: Map<int, StorageModel>,
    s2: Map<int, StorageModel>,
    ops: Seq<Operation>,
    plan: Seq<usize>,
) -> bool {
    forall|v: int| !is_plan_binary(ops, plan, v) ==> #[trigger] maps_agree_at(s1, s2, v)
}

/// Some edge runs from `a` to `b`.
pub open spec fn has_edge(edges: Seq<(usize, usize)>, a: int, b: int) -> bool {
    exists|ei: int|
        0 <= ei < edges.len() && (#[trigger] edges[ei]).0 == a && edges[ei].1 == b
}

proof fn lemma_in_sources_edges(edges: Seq<(usize, usize)>, v: int)
    ensures
        forall|j: int|
            0 <= j < in_sources(edges, v).len() ==> has_edge(
                edges,
                (#[trigger] in_sources(edges, v)[j]) as int,
                v,
            ),
    decreases edges.len(),
{
    if edges.len() > 0 {
        lemma_in_sources_edges(edges.drop_last(), v);
        let srcs = in_sources(edges, v);
        let rest = in_sources(edges.drop_last(), v);
        assert forall|j: int| 0 <= j < srcs.len() implies has_edge(
            edges,
            (#[trigger] srcs[j]) as int,
            v,
        ) by {
            if j < rest.len() {
                assert(has_edge(edges.drop_last(), rest[j] as int, v));
                let ei = choose|ei: int|
                    0 <= ei < edges.drop_last().len() && (#[trigger] edges.drop_last()[ei]).0
                        == rest[j] as int && edges.drop_last()[ei].1 == v;
                assert(edges[ei] == edges.drop_last()[ei]);
            } else {
                assert(edges.last().1 == v && srcs[j] == edges.last().0);
                assert(edges[edges.len() - 1] == edges.last());
            }
        }
    }
}

/// The storage table a run outcome carries.
pub open spec fn run_store(r: RunState) -> Map<int, StorageModel> {
    match r {
        RunState::Done { store } => store,
        RunState::Faulted { store } => store,
        RunState::Aborted => Map::empty(),
    }
}

/// Running the tail of the plan changes the table only at plan binary
/// nodes; everything else keeps its presence and value.
proof fn lemma_run_untouched<K: ElementKernel>(
    k: K,
    ops: Seq<Operation>,
    edges: Seq<(usize, usize)>,
    plan: Seq<usize>,
    i: int,
    s: Map<int, StorageModel>,
)
    requires
        0 <= i <= plan.len(),
    ensures
        forall|v: int|
            run_plan(k, ops, edges, s, plan.skip(i)) is Done && !is_plan_binary(
                ops,
                plan.skip(i),
                v,
            ) ==> #[trigger] maps_agree_at(
                s,
                run_store(run_plan(k, ops, edges, s, plan.skip(i))),
                v,
            ),
    decreases plan.len() - i,
{
    let tail = plan.skip(i);
    if i < plan.len() {
        let v = plan[i] as int;
        assert(tail[0] == plan[i]);
        assert(tail.drop_first() =~= plan.skip(i + 1));
        let step = step_node(k, ops, edges, s, v);
        match step {
            RunState::Done { store: s2 } => {
                lemma_run_untouched(k, ops, edges, plan, i + 1, s2);
                if run_plan(k, ops, edges, s2, plan.skip(i + 1)) is Done {
                    assert forall|w: int|
                        run_plan(k, ops, edges, s, tail) is Done && !is_plan_binary(
                            ops,
                            tail,
                            w,
                        ) implies #[trigger] maps_agree_at(
                        s,
                        run_store(run_plan(k, ops, edges, s, tail)),
                        w,
                    ) by {
                        assert(!is_plan_binary(ops, plan.skip(i + 1), w)) by {
                            if has_node(plan.skip(i + 1), w) {
                                let kk = choose|kk: int|
                                    0 <= kk < plan.skip(i + 1).len() && (#[trigger] plan.skip(
                                        i + 1,
                                    )[kk]) == w;
                                assert(tail[kk + 1] == w);
                            }
                        }
                        assert(maps_agree_at(
                            s2,
                            run_store(run_plan(k, ops, edges, s2, plan.skip(i + 1))),
                            w,
                        ));
                        if w != v {
                            assert(maps_agree_at(s, s2, w));
                        } else {
                            assert(!(0 <= v < ops.len()) || is_leaf_op(ops[v]));
                            assert(maps_agree_at(s, s2, w));
                        }
                    }
                }
            },
            _ => {},
        }
    } else {
        assert(tail =~= Seq::<usize>::empty());
    }
}

/// Two storage tables that agree outside the plan's binary nodes drive the
/// remaining plan to the same outcome, and on success to the same final
/// table: computed values depend only on leaves and earlier plan nodes.
proof fn lemma_run_agree<K: ElementKernel>(
    k: K,
    ops: Seq<Operation>,
    edges: Seq<(usize, usize)>,
    plan: Seq<usize>,
    i: int,
    s1: Map<int, StorageModel>,
    s2: Map<int, StorageModel>,
)
    requires
        0 <= i <= plan.len(),
        forall|kk: int| 0 <= kk < plan.len() ==> (#[trigger] plan[kk]) < ops.len(),
        forall|k1: int, k2: int| 0 <= k1 < k2 < plan.len() ==> plan[k1] != plan[k2],
        forall|ei: int, q: int|
            0 <= ei < edges.len() && 0 <= q < plan.len() && (#[trigger] edges[ei]).1 == (
            #[trigger] plan[q]) ==> exists|p: int| 0 <= p < q && plan[p] == edges[ei].0,
        agree_except_binaries(s1, s2, ops, plan.skip(i)),
    ensures
        ({
            let r1 = run_plan(k, ops, edges, s1, plan.skip(i));
            let r2 = run_plan(k, ops, edges, s2, plan.skip(i));
            &&& r1 is Done <==> r2 is Done
            &&& r1 is Faulted <==> r2 is Faulted
            &&& r1 is Aborted <==> r2 is Aborted
            &&& (r1 matches RunState::Done { store: f1 } ==> (r2 matches RunState::Done {
                store: f2,
            } && f1 == f2))
        }),
    decreases plan.len() - i,
{
    let tail = plan.skip(i);
    if i == plan.len() {
        assert(tail =~= Seq::<usize>::empty());
        assert forall|v: int| #[trigger] s1.dom().contains(v) implies s2.dom().contains(v) by {
            assert(!is_plan_binary(ops, tail, v));
            assert(maps_agree_at(s1, s2, v));
        }
        assert forall|v: int| #[trigger] s2.dom().contains(v) implies s1.dom().contains(v) by {
            assert(!is_plan_binary(ops, tail, v));
            assert(maps_agree_at(s1, s2, v));
        }
        assert(s1.dom() =~= s2.dom());
        assert forall|v: int| s1.dom().contains(v) implies #[trigger] s1[v] == s2[v] by {
            assert(!is_plan_binary(ops, tail, v));
            assert(maps_agree_at(s1, s2, v));
        }
        assert(s1 =~= s2);
    } else {
        let v = plan[i] as int;
        assert(tail[0] == plan[i]);
        assert(tail.drop_first() =~= plan.skip(i + 1));
        assert forall|w: int|
            is_plan_binary(ops, tail, w) && w != v implies is_plan_binary(
            ops,
            plan.skip(i + 1),
            w,
        ) by {
            let kk = choose|kk: int| 0 <= kk < tail.len() && (#[trigger] tail[kk]) == w;
            assert(kk != 0);
            assert(plan.skip(i + 1)[kk - 1] == w);
        }
        if is_leaf_op(ops[v]) {
            assert forall|w: int|
                !is_plan_binary(ops, plan.skip(i + 1), w) implies #[trigger] maps_agree_at(
                s1,
                s2,
                w,
            ) by {
                if is_plan_binary(ops, tail, w) {
                    assert(w == v);
                    assert(false);
                }
            }
            lemma_run_agree(k, ops, edges, plan, i + 1, s1, s2);
        } else {
            let srcs = in_sources(edges, v);
            lemma_in_sources_edges(edges, v);
            assert forall|j: int| 0 <= j < srcs.len() implies #[trigger] maps_agree_at(
                s1,
                s2,
                srcs[j] as int,
            ) by {
                assert(has_edge(edges, srcs[j] as int, v));
                let ei = choose|ei: int|
                    0 <= ei < edges.len() && (#[trigger] edges[ei]).0 == srcs[j] as int
                        && edges[ei].1 == v;
                assert(edges[ei].1 == plan[i]);
                let p = choose|p: int| 0 <= p < i && plan[p] == edges[ei].0;
                assert(!is_plan_binary(ops, tail, srcs[j] as int)) by {
                    if has_node(tail, srcs[j] as int) {
                        let kk = choose|kk: int|
                            0 <= kk < tail.len() && (#[trigger] tail[kk]) == srcs[j] as int;
                        assert(plan[i + kk] == plan[p]);
                        assert(false);
                    }
                }
            }
            if srcs.len() != 2 {
            } else {
                assert(maps_agree_at(s1, s2, srcs[0] as int));
                assert(maps_agree_at(s1, s2, srcs[1] as int));
                if s1.dom().contains(srcs[0] as int) && s1.dom().contains(srcs[1] as int) {
                    let a = s1[srcs[0] as int];
                    let b = s1[srcs[1] as int];
                    assert(s2[srcs[0] as int] == a && s2[srcs[1] as int] == b);
                    if bcast_compat(model_shape(a), model_shape(b)) && a is F32 && b is F32
                        && dims_wf(bcast_dims(model_shape(a), model_shape(b))) {
                        let r = binary_result(k, ops[v], a, b);
                        let t1 = s1.insert(v, r);
                        let t2 = s2.insert(v, r);
                        assert forall|w: int|
                            !is_plan_binary(ops, plan.skip(i + 1), w) implies
                            #[trigger] maps_agree_at(t1, t2, w) by {
                            if w == v {
                            } else if is_plan_binary(ops, tail, w) {
                                assert(false);
                            } else {
                                assert(maps_agree_at(s1, s2, w));
                            }
                        }
                        lemma_run_agree(k, ops, edges, plan, i + 1, t1, t2);
                    }
                }
            }
        }
    }
}

/// Binding a table at the input nodes: each input node is bound to its
/// datum, every other node keeps its binding.
proof fn lemma_bound_char(
    store: Map<int, StorageModel>,
    inputs: Seq<usize>,
    data: Map<int, StorageModel>,
)
    ensures
        forall|v: int|
            #[trigger] has_node(inputs, v) ==> bound_store(store, inputs, data).dom().contains(
                v,
            ) && bound_store(store, inputs, data)[v] == data[v],
        forall|v: int|
            !(#[trigger] has_node(inputs, v)) ==> maps_agree_at(
                store,
                bound_store(store, inputs, data),
                v,
            ),
    decreases inputs.len(),
{
    if inputs.len() > 0 {
        lemma_bound_char(store, inputs.drop_last(), data);
        assert(inputs[inputs.len() - 1] == inputs.last());
        assert forall|v: int| #[trigger] has_node(inputs, v) implies bound_store(
            store,
            inputs,
            data,
        ).dom().contains(v) && bound_store(store, inputs, data)[v] == data[v] by {
            if v != inputs.last() as int {
                let kk = choose|kk: int|
                    0 <= kk < inputs.len() && (#[trigger] inputs[kk]) == v;
                assert(kk < inputs.len() - 1);
                assert(inputs.drop_last()[kk] == v);
                assert(has_node(inputs.drop_last(), v));
            }
        }
        assert forall|v: int| !(#[trigger] has_node(inputs, v)) implies maps_agree_at(
            store,
            bound_store(store, inputs, data),
            v,
        ) by {
            assert(v != inputs.last() as int) by {
                if v == inputs.last() as int {
                    assert(inputs[inputs.len() - 1] == v);
                    assert(has_node(inputs, v));
                }
            }
            assert(!has_node(inputs.drop_last(), v)) by {
                if has_node(inputs.drop_last(), v) {
                    let kk = choose|kk: int|
                        0 <= kk < inputs.drop_last().len() && (#[trigger] inputs.drop_last()[kk])
                            == v;
                    assert(inputs[kk] == v);
                    assert(has_node(inputs, v));
                }
            }
            assert(maps_agree_at(store, bound_store(store, inputs.drop_last(), data), v));
        }
    }
}

/// Idempotent re-execution: running the plan again from the storage table a
/// successful run left behind, with the same input bindings, finishes with
/// exactly that same table — and hence with the same output mapping.
pub proof fn lemma_execute_idempotent<K: ElementKernel>(
    k: K,
    exe: GraphExecutable,
    data: Map<int, StorageModel>,
    f1: Map<int, StorageModel>,
)
    requires
        exe.wf(),
        run_plan(
            k,
            exe.ops@,
            exe.edges@,
            bound_store(exe.tensor_storage@, exe.inputs@, data),
            exe.execution_plan@,
        ) == (RunState::Done { store: f1 }),
    ensures
        run_plan(
            k,
            exe.ops@,
            exe.edges@,
            bound_store(f1, exe.inputs@, data),
            exe.execution_plan@,
        ) == (RunState::Done { store: f1 }),
{
    let ops = exe.ops@;
    let edges = exe.edges@;
    let plan = exe.execution_plan@;
    let inputs = exe.inputs@;
    let s0 = bound_store(exe.tensor_storage@, inputs, data);
    let s0b = bound_store(f1, inputs, data);
    lemma_bound_char(exe.tensor_storage@, inputs, data);
    lemma_bound_char(f1, inputs, data);
    assert(plan.skip(0) =~= plan);
    lemma_run_untouched(k, ops, edges, plan, 0, s0);
    assert(run_plan(k, ops, edges, s0, plan.skip(0)) == (RunState::Done { store: f1 }));
    assert forall|v: int| !is_plan_binary(ops, plan, v) implies #[trigger] maps_agree_at(
        s0,
        f1,
        v,
    ) by {
        assert(!is_plan_binary(ops, plan.skip(0), v));
        assert(maps_agree_at(s0, run_store(run_plan(k, ops, edges, s0, plan.skip(0))), v));
        assert(run_store(run_plan(k, ops, edges, s0, plan.skip(0))) == f1);
    }
    assert(agree_except_binaries(s0, s0b, ops, plan)) by {
        assert forall|v: int| !is_plan_binary(ops, plan, v) implies #[trigger] maps_agree_at(
            s0,
            s0b,
            v,
        ) by {
            if has_node(inputs, v) {
                assert(bound_store(exe.tensor_storage@, inputs, data).dom().contains(v)
                    && bound_store(exe.tensor_storage@, inputs, data)[v] == data[v]);
                assert(bound_store(f1, inputs, data).dom().contains(v) && bound_store(
                    f1,
                    inputs,
                    data,
                )[v] == data[v]);
            } else {
                assert(maps_agree_at(exe.tensor_storage@, bound_store(
                    exe.tensor_storage@,
                    inputs,
                    data,
                ), v));
                assert(maps_agree_at(f1, bound_store(f1, inputs, data), v));
                assert(maps_agree_at(s0, f1, v));
            }
        }
    }
    lemma_run_agree(k, ops, edges, plan, 0, s0, s0b);
    match run_plan(k, ops, edges, s0b, plan) {
        RunState::Done { store: f2 } => {
            assert(f2 == f1);
        },
        _ => {
            assert(false);
        },
    }
}

/// The required-node set is determined by the targets alone: any two
/// dependency-closed supersets of the targets that are both least are the
/// same set, whatever order the discovery visited the graph in.
pub proof fn lemma_required_set_unique(
    edges: Seq<(usize, usize)>,
    targets: Set<int>,
    r1: Set<int>,
    r2: Set<int>,
)
    requires
        targets.subset_of(r1),
        closed_under_deps(edges, r1),
        forall|s: Set<int>|
            targets.subset_of(s) && #[trigger] closed_under_deps(edges, s) ==> r1.subset_of(s),
        targets.subset_of(r2),
        closed_under_deps(edges, r2),
        forall|s: Set<int>|
            targets.subset_of(s) && #[trigger] closed_under_deps(edges, s) ==> r2.subset_of(s),
    ensures
        r1 == r2,
{
    assert(r1.subset_of(r2));
    assert(r2.subset_of(r1));
    assert(r1 =~= r2);
}

} // verus!
