//! The distributed step: every unit advanced exactly once, in randomly
//! ordered chunks whose size never exceeds the resolver pool.
//!
//! The step itself alternates between planning (pure, verified here) and
//! remote resolver calls (performed by the caller): `next_chunk_tasks`
//! hands out at most one task per pool slot, the caller resolves them
//! concurrently, and `commit_chunk` applies the outcomes. A chunk is
//! committed in full before the next one is handed out — the chunk
//! barrier — so no more resolver calls are ever pending than the pool has
//! resolvers.
//!
//! Neighbor projections are snapshotted when a chunk's tasks are handed
//! out, from the lattice as it stands then: a unit committed by an earlier
//! chunk of the same step is seen by later chunks with its new record.
//! Readers of a mid-step lattice should treat what they see as
//! approximate.

use vstd::prelude::*;

use crate::compute::{response_record, response_view};
use crate::space::{CognitiveSpaceWithMemory, SpaceModel};
use crate::unit::{CognitiveUnitPair, CognitiveUnitWithMemory, PairModel, RecordModel, UnitModel};

verus! {

/// The identity order on `n` arena indices.
pub open spec fn index_seq(n: nat) -> Seq<usize> {
    Seq::new(n, |i: int| i as usize)
}

/// A permutation of `0..n` visits each arena index exactly once: this is
/// what makes one step advance every unit once and none twice.
pub proof fn lemma_permutation_facts(order: Seq<usize>, n: nat)
    requires
        n <= usize::MAX,
        order.to_multiset() == index_seq(n).to_multiset(),
    ensures
        order.len() == n,
        order.no_duplicates(),
        forall|i: int| 0 <= i < order.len() ==> (#[trigger] order[i]) < n,
        forall|x: usize| x < n ==> order.contains(x),
{
    broadcast use vstd::seq_lib::group_to_multiset_ensures;

    let idx = index_seq(n);
    assert forall|i: int, j: int| 0 <= i < n && 0 <= j < n && i != j implies idx[i] != idx[j] by {
        assert(idx[i] == i as usize);
        assert(idx[j] == j as usize);
    }
    assert(idx.no_duplicates());
    idx.lemma_multiset_has_no_duplicates();
    assert(order.to_multiset().len() == idx.to_multiset().len());
    assert(order.len() == n);
    assert forall|x: usize| order.to_multiset().contains(x) implies order.to_multiset().count(x)
        == 1 by {
        assert(order.to_multiset().count(x) == idx.to_multiset().count(x));
        assert(idx.to_multiset().contains(x));
    }
    order.lemma_multiset_has_no_duplicates_conv();
    assert forall|i: int| 0 <= i < order.len() implies (#[trigger] order[i]) < n by {
        assert(order.contains(order[i]));
        assert(order.to_multiset().count(order[i]) > 0);
        assert(idx.contains(order[i]));
    }
    assert forall|x: usize| x < n implies order.contains(x) by {
        assert(idx[x as int] == x);
        assert(idx.contains(x));
        assert(order.to_multiset().count(x) > 0);
    }
}

/// One pending resolver call: the unit it advances, the pool slot it was
/// assigned within its chunk, and the request payload — the unit's own
/// history projections and its neighbors' latest projections.
#[derive(Debug, PartialEq, Eq)]
pub struct ResolveTask {
    pub node: usize,
    pub resolver_index: usize,
    pub memory_pairs: Vec<CognitiveUnitPair>,
    pub neighbor_pairs: Vec<CognitiveUnitPair>,
}

/// Mathematical model of a [`ResolveTask`].
pub ghost struct TaskModel {
    pub node: usize,
    pub resolver_index: usize,
    pub memory_pairs: Seq<PairModel>,
    pub neighbor_pairs: Seq<PairModel>,
}

impl View for ResolveTask {
    type V = TaskModel;

    open spec fn view(&self) -> TaskModel {
        TaskModel {
            node: self.node,
            resolver_index: self.resolver_index,
            memory_pairs: self.memory_pairs.deep_view(),
            neighbor_pairs: self.neighbor_pairs.deep_view(),
        }
    }
}

impl DeepView for ResolveTask {
    type V = TaskModel;

    open spec fn deep_view(&self) -> TaskModel {
        self.view()
    }
}

/// One planned pass over the lattice: a shuffled order over all arena
/// indices, a pool bound, and the front of the first uncommitted chunk.
pub struct StepPlan {
    order: Vec<usize>,
    pool_len: usize,
    next: usize,
}

/// Mathematical model of a [`StepPlan`].
pub ghost struct PlanModel {
    pub order: Seq<usize>,
    pub pool_len: usize,
    pub next: usize,
}

impl View for StepPlan {
    type V = PlanModel;

    closed spec fn view(&self) -> PlanModel {
        PlanModel { order: self.order@, pool_len: self.pool_len, next: self.next }
    }
}

impl PlanModel {
    /// A plan for a lattice of `n` units: a non-empty pool bound and an
    /// order that is a permutation of the `n` arena indices.
    pub open spec fn wf_for(self, n: nat) -> bool {
        &&& self.pool_len >= 1
        &&& self.order.len() == n
        &&& self.next <= n
        &&& self.order.to_multiset() == index_seq(n).to_multiset()
    }

    /// Size of the current chunk: the pool bound, or whatever remains.
    pub open spec fn chunk_len(self) -> int {
        if self.order.len() - self.next < self.pool_len {
            self.order.len() - self.next
        } else {
            self.pool_len as int
        }
    }

    /// Chunks still to be committed.
    pub open spec fn chunks_remaining(self) -> int {
        (self.order.len() - self.next + self.pool_len - 1) / (self.pool_len as int)
    }

    /// Whether arena index `k` belongs to the current chunk.
    pub open spec fn in_current_chunk(self, k: int) -> bool {
        exists|i: int|
            self.next <= i < self.next + self.chunk_len() && #[trigger] self.order[i] == k
    }
}

/// Chunk count law: a full step over `n` units with a pool of `p`
/// resolvers is committed in exactly `ceil(n / p)` chunks.
pub proof fn lemma_chunk_count(plan: PlanModel, n: nat)
    requires
        plan.wf_for(n),
        plan.next == 0,
    ensures
        plan.chunks_remaining() == (n + plan.pool_len - 1) / (plan.pool_len as int),
{
}

/// Concurrency bound law: a chunk never holds more tasks than the pool
/// has resolvers, so no more than `pool_len` resolver calls are ever in
/// flight at once.
pub proof fn lemma_chunk_concurrency_bound(plan: PlanModel, space: SpaceModel, n: nat)
    requires
        plan.wf_for(n),
    ensures
        chunk_tasks(plan, space).len() <= plan.pool_len,
{
}

/// The tasks of the current chunk, as read off a given space: task `i`
/// targets the `i`-th node of the chunk, is assigned pool slot `i`, and
/// carries that node's history projections and its neighbors' latest
/// projections.
pub open spec fn chunk_tasks(plan: PlanModel, space: SpaceModel) -> Seq<TaskModel> {
    Seq::new(
        plan.chunk_len() as nat,
        |i: int|
            TaskModel {
                node: plan.order[plan.next + i],
                resolver_index: i as usize,
                memory_pairs: space.units[plan.order[plan.next + i] as int].memory_pairs(),
                neighbor_pairs: space.neighbor_pairs_of(plan.order[plan.next + i] as int),
            },
    )
}

/// How a committed response transforms one unit: its next record is
/// computed from its previous record and the response, then appended under
/// the bounded FIFO eviction.
pub open spec fn committed_unit(
    u: UnitModel,
    response: Option<Seq<char>>,
    neighbors: Seq<PairModel>,
    timestamp: u64,
) -> UnitModel {
    UnitModel {
        memory: crate::unit::push_bounded(
            u.memory,
            response_record(u.latest(), response, neighbors, timestamp),
            u.memory_size,
        ),
        ..u
    }
}

fn pairs_of_unit(unit: &CognitiveUnitWithMemory) -> (r: Vec<CognitiveUnitPair>)
    ensures
        r.deep_view() == unit@.memory_pairs(),
{
    let mut r: Vec<CognitiveUnitPair> = Vec::new();
    let mut i: usize = 0;
    while i < unit.memory.len()
        invariant
            i <= unit.memory.len(),
            r.deep_view() =~= unit@.memory_pairs().take(i as int),
        decreases unit.memory.len() - i,
    {
        let ghost prev = r.deep_view();
        let pair = unit.memory[i].to_pair();
        r.push(pair);
        proof {
            assert(r.deep_view() =~= prev.push(pair@));
            assert(r.deep_view() =~= unit@.memory_pairs().take(i + 1));
        }
        i += 1;
    }
    proof {
        assert(r.deep_view() =~= unit@.memory_pairs());
    }
    r
}

impl StepPlan {
    /// Plans one distributed step: a freshly shuffled pass over all
    /// `unit_count` arena indices, to be dispatched in chunks of at most
    /// `pool_len` concurrent resolver calls.
    pub fn new(unit_count: usize, pool_len: usize) -> (r: Self)
        requires
            pool_len >= 1,
        ensures
            r@.wf_for(unit_count as nat),
            r@.next == 0,
            r@.pool_len == pool_len,
    {
        let mut order: Vec<usize> = Vec::new();
        let mut i: usize = 0;
        proof {
            assert(order@ =~= index_seq(0));
        }
        while i < unit_count
            invariant
                i <= unit_count,
                order@ =~= index_seq(i as nat),
            decreases unit_count - i,
        {
            order.push(i);
            proof {
                assert(order@ =~= index_seq((i + 1) as nat));
            }
            i += 1;
        }
        proof {
            assert(order@ == index_seq(unit_count as nat));
        }
        crate::outside::shuffle_indices(&mut order);
        proof {
            broadcast use vstd::seq_lib::group_to_multiset_ensures;

            assert(order@.to_multiset() == index_seq(unit_count as nat).to_multiset());
            assert(order@.to_multiset().len() == index_seq(unit_count as nat).to_multiset().len());
            assert(order@.len() == unit_count);
        }
        StepPlan { order, pool_len, next: 0 }
    }

    /// Pool slots available per chunk.
    pub fn pool_len(&self) -> (r: usize)
        ensures
            r == self@.pool_len,
    {
        self.pool_len
    }

    /// Whether every chunk of this pass has been committed.
    pub fn is_done(&self) -> (b: bool)
        ensures
            b == (self@.next == self@.order.len()),
    {
        self.next == self.order.len()
    }

    /// Hands out the tasks of the current chunk. Never more tasks than the
    /// pool has resolvers: this is the concurrency bound of the step.
    pub fn next_chunk_tasks(&self, space: &CognitiveSpaceWithMemory) -> (tasks: Vec<ResolveTask>)
        requires
            space@.wf(),
            self@.wf_for(space@.units.len() as nat),
        ensures
            tasks.deep_view() == chunk_tasks(self@, space@),
            tasks@.len() == self@.chunk_len(),
            tasks@.len() <= self@.pool_len,
    {
        proof {
            lemma_permutation_facts(self@.order, space@.units.len() as nat);
        }
        let remaining = self.order.len() - self.next;
        let chunk = if remaining < self.pool_len {
            remaining
        } else {
            self.pool_len
        };
        let mut tasks: Vec<ResolveTask> = Vec::new();
        let mut i: usize = 0;
        while i < chunk
            invariant
                i <= chunk,
                chunk == self@.chunk_len(),
                self@.next + chunk <= self@.order.len(),
                space@.wf(),
                self@.wf_for(space@.units.len() as nat),
                forall|j: int|
                    0 <= j < self@.order.len() ==> (#[trigger] self@.order[j])
                        < space@.units.len(),
                tasks.deep_view() =~= chunk_tasks(self@, space@).take(i as int),
            decreases chunk - i,
        {
            let node = self.order[self.next + i];
            proof {
                assert(node < space@.units.len());
            }
            let memory_pairs = pairs_of_unit(space.unit_at(node));
            let neighbor_pairs = space.neighbor_pairs(node);
            let task = ResolveTask { node, resolver_index: i, memory_pairs, neighbor_pairs };
            let ghost prev = tasks.deep_view();
            let ghost task_view = task@;
            tasks.push(task);
            proof {
                assert(tasks.deep_view() =~= prev.push(task_view));
                assert(tasks.deep_view() =~= chunk_tasks(self@, space@).take(i + 1));
            }
            i += 1;
        }
        proof {
            assert(tasks.deep_view() =~= chunk_tasks(self@, space@));
        }
        tasks
    }

    /// Commits one chunk: for every task, the unit's next record is
    /// computed from the response it got (`None` standing for a remote
    /// call that failed outright) and appended to that unit's bounded
    /// history. Units outside the chunk are untouched, and the plan
    /// advances past the chunk.
    pub fn commit_chunk(
        &mut self,
        space: &mut CognitiveSpaceWithMemory,
        tasks: &Vec<ResolveTask>,
        responses: &Vec<Option<String>>,
        timestamp: u64,
    )
        requires
            old(space)@.wf(),
            old(self)@.wf_for(old(space)@.units.len() as nat),
            tasks.deep_view() == chunk_tasks(old(self)@, old(space)@),
            responses@.len() == tasks@.len(),
        ensures
            final(self)@.order == old(self)@.order,
            final(self)@.pool_len == old(self)@.pool_len,
            final(self)@.next == old(self)@.next + old(self)@.chunk_len(),
            final(self)@.wf_for(old(space)@.units.len() as nat),
            final(space)@.wf(),
            final(space)@.rows == old(space)@.rows,
            final(space)@.cols == old(space)@.cols,
            final(space)@.adjacency == old(space)@.adjacency,
            final(space)@.units.len() == old(space)@.units.len(),
            forall|i: int|
                0 <= i < tasks@.len() ==> final(space)@.units[tasks.deep_view()[i].node as int]
                    == committed_unit(
                    old(space)@.units[tasks.deep_view()[i].node as int],
                    responses.deep_view()[i],
                    tasks.deep_view()[i].neighbor_pairs,
                    timestamp,
                ),
            forall|k: int|
                0 <= k < old(space)@.units.len() && !old(self)@.in_current_chunk(k)
                    ==> final(space)@.units[k] == old(space)@.units[k],
            old(self)@.chunk_len() > 0 ==> final(self)@.chunks_remaining()
                == old(self)@.chunks_remaining() - 1,
    {
        proof {
            lemma_permutation_facts(self@.order, space@.units.len() as nat);
            assert(tasks.deep_view().len() == tasks@.len());
            assert(tasks@.len() == old(self)@.chunk_len());
        }
        let chunk = tasks.len();
        let mut i: usize = 0;
        while i < chunk
            invariant
                i <= chunk,
                chunk == tasks@.len(),
                chunk == old(self)@.chunk_len(),
                self@ == old(self)@,
                responses@.len() == chunk,
                tasks.deep_view() == chunk_tasks(old(self)@, old(space)@),
                old(self)@.wf_for(old(space)@.units.len() as nat),
                old(self)@.next + chunk <= old(self)@.order.len(),
                old(self)@.order.no_duplicates(),
                forall|j: int|
                    0 <= j < old(self)@.order.len() ==> (#[trigger] old(self)@.order[j]) < old(
                        space,
                    )@.units.len(),
                space@.wf(),
                space@.rows == old(space)@.rows,
                space@.cols == old(space)@.cols,
                space@.adjacency == old(space)@.adjacency,
                space@.units.len() == old(space)@.units.len(),
                forall|j: int|
                    0 <= j < i ==> space@.units[tasks.deep_view()[j].node as int]
                        == committed_unit(
                        old(space)@.units[tasks.deep_view()[j].node as int],
                        responses.deep_view()[j],
                        tasks.deep_view()[j].neighbor_pairs,
                        timestamp,
                    ),
                forall|k: int|
                    0 <= k < old(space)@.units.len() && !(exists|j: int|
                        0 <= j < i && (#[trigger] tasks.deep_view()[j].node) == k) ==> space@.units[k]
                        == old(space)@.units[k],
            decreases chunk - i,
        {
            let task = &tasks[i];
            let node = task.node;
            proof {
                assert(tasks.deep_view()[i as int].node == old(self)@.order[old(self)@.next
                    + i]);
                assert(node < space@.units.len());
                assert forall|j: int| 0 <= j < i implies (#[trigger] tasks.deep_view()[j].node)
                    != node as int by {
                    assert(tasks.deep_view()[j].node == old(self)@.order[old(self)@.next + j]);
                }
                assert(space@.units[node as int] == old(space)@.units[node as int]);
            }
            let resp = responses[i].as_ref();
            proof {
                assert(response_view(resp) == responses.deep_view()[i as int]);
            }
            let unit = space.unit_at(node);
            let record = unit.calculate_next_complex(resp, &task.neighbor_pairs, timestamp);
            space.apply_record(node, record);
            i += 1;
        }
        proof {
            assert forall|k: int|
                0 <= k < old(space)@.units.len() && !old(self)@.in_current_chunk(k) implies space@.units[k]
                == old(space)@.units[k] by {
                if exists|j: int| 0 <= j < chunk && (#[trigger] tasks.deep_view()[j].node) == k {
                    let j = choose|j: int|
                        0 <= j < chunk && (#[trigger] tasks.deep_view()[j].node) == k;
                    assert(old(self)@.order[old(self)@.next + j] == k);
                    assert(old(self)@.in_current_chunk(k));
                }
            }
        }
        let advance = if self.order.len() - self.next < self.pool_len {
            self.order.len() - self.next
        } else {
            self.pool_len
        };
        self.next = self.next + advance;
        proof {
            if old(self)@.chunk_len() > 0 {
                lemma_chunks_remaining_decrement(old(self)@);
            }
        }
    }
}

/// Committing a non-empty chunk brings the remaining chunk count down by
/// exactly one.
proof fn lemma_chunks_remaining_decrement(plan: PlanModel)
    requires
        plan.pool_len >= 1,
        plan.next <= plan.order.len(),
        plan.chunk_len() > 0,
    ensures
        (plan.order.len() - (plan.next + plan.chunk_len()) + plan.pool_len - 1) / (
        plan.pool_len as int) == plan.chunks_remaining() - 1,
{
    let p = plan.pool_len as int;
    let rem = plan.order.len() - plan.next;
    if rem < p {
        assert((rem - rem + p - 1) / p == 0) by (nonlinear_arith)
            requires
                p >= 1,
        ;
        assert((rem + p - 1) / p == 1) by (nonlinear_arith)
            requires
                p >= 1,
                0 < rem < p,
        ;
    } else {
        assert((rem - p + p - 1) / p == (rem + p - 1) / p - 1) by (nonlinear_arith)
            requires
                p >= 1,
                rem >= p,
        ;
    }
}

} // verus!
