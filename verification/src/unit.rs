//! One lattice cell: a bounded history of records and its projections.

use vstd::prelude::*;

verus! {

/// The minimal public view of a unit, exchanged with neighbors and resolvers.
#[derive(Debug, PartialEq, Eq)]
pub struct CognitiveUnitPair {
    pub rule: String,
    pub state: String,
}

/// Mathematical model of a [`CognitiveUnitPair`].
pub ghost struct PairModel {
    pub rule: Seq<char>,
    pub state: Seq<char>,
}

impl View for CognitiveUnitPair {
    type V = PairModel;

    open spec fn view(&self) -> PairModel {
        PairModel { rule: self.rule@, state: self.state@ }
    }
}

impl DeepView for CognitiveUnitPair {
    type V = PairModel;

    open spec fn deep_view(&self) -> PairModel {
        self.view()
    }
}

impl CognitiveUnitPair {
    pub fn new(rule: String, state: String) -> (r: Self)
        ensures
            r@.rule == rule@,
            r@.state == state@,
    {
        CognitiveUnitPair { rule, state }
    }
}

/// One history entry of a unit. A record is immutable once created: a new
/// record is produced by every step, never a mutation of an old one.
#[derive(Debug, PartialEq, Eq)]
pub struct CognitiveUnitComplex {
    /// Creation time, in milliseconds since the Unix epoch.
    pub timestamp: u64,
    pub rule: String,
    /// Opaque payload, typically JSON-encoded text.
    pub state: String,
    /// The states of the neighbors as they were snapshotted for this step.
    pub neighbors: Vec<String>,
    /// Empty on a clean computation; holds the raw response and an error
    /// description when the resolver's answer could not be parsed.
    pub feedback: String,
}

/// Mathematical model of a [`CognitiveUnitComplex`].
pub ghost struct RecordModel {
    pub timestamp: u64,
    pub rule: Seq<char>,
    pub state: Seq<char>,
    pub neighbors: Seq<Seq<char>>,
    pub feedback: Seq<char>,
}

impl View for CognitiveUnitComplex {
    type V = RecordModel;

    open spec fn view(&self) -> RecordModel {
        RecordModel {
            timestamp: self.timestamp,
            rule: self.rule@,
            state: self.state@,
            neighbors: self.neighbors.deep_view(),
            feedback: self.feedback@,
        }
    }
}

impl DeepView for CognitiveUnitComplex {
    type V = RecordModel;

    open spec fn deep_view(&self) -> RecordModel {
        self.view()
    }
}

impl RecordModel {
    /// The projection of a record: its `(rule, state)` pair.
    pub open spec fn pair(self) -> PairModel {
        PairModel { rule: self.rule, state: self.state }
    }
}

impl CognitiveUnitComplex {
    pub fn new(
        timestamp: u64,
        rule: String,
        state: String,
        neighbors: Vec<String>,
        feedback: String,
    ) -> (r: Self)
        ensures
            r@ == (RecordModel {
                timestamp,
                rule: rule@,
                state: state@,
                neighbors: neighbors.deep_view(),
                feedback: feedback@,
            }),
    {
        CognitiveUnitComplex { timestamp, rule, state, neighbors, feedback }
    }

    /// The `(rule, state)` projection of this record.
    pub fn to_pair(&self) -> (r: CognitiveUnitPair)
        ensures
            r@ == self@.pair(),
    {
        CognitiveUnitPair { rule: self.rule.clone(), state: self.state.clone() }
    }
}

pub(crate) fn clone_string_vec(v: &Vec<String>) -> (r: Vec<String>)
    ensures
        r.deep_view() == v.deep_view(),
{
    let mut r: Vec<String> = Vec::new();
    let mut i: usize = 0;
    while i < v.len()
        invariant
            i <= v.len(),
            r.deep_view() =~= v.deep_view().take(i as int),
        decreases v.len() - i,
    {
        let ghost prev = r.deep_view();
        let x = v[i].clone();
        r.push(x);
        proof {
            assert(r.deep_view() =~= prev.push(x.deep_view()));
            assert(r.deep_view() =~= v.deep_view().take(i + 1));
        }
        i += 1;
    }
    proof {
        assert(r.deep_view() =~= v.deep_view());
    }
    r
}

impl Clone for CognitiveUnitPair {
    fn clone(&self) -> (r: Self)
        ensures
            r@ == self@,
    {
        CognitiveUnitPair { rule: self.rule.clone(), state: self.state.clone() }
    }
}

impl Clone for CognitiveUnitComplex {
    fn clone(&self) -> (r: Self)
        ensures
            r@ == self@,
    {
        CognitiveUnitComplex {
            timestamp: self.timestamp,
            rule: self.rule.clone(),
            state: self.state.clone(),
            neighbors: clone_string_vec(&self.neighbors),
            feedback: self.feedback.clone(),
        }
    }
}

/// One lattice cell: its position, and a bounded FIFO history of records.
#[derive(Debug, PartialEq, Eq)]
pub struct CognitiveUnitWithMemory {
    /// The recorded history, oldest first. Never empty; at most
    /// `memory_size` entries.
    pub memory: Vec<CognitiveUnitComplex>,
    /// The hard capacity of `memory`.
    pub memory_size: usize,
    /// The `(row, column)` coordinates of this cell in its lattice.
    pub position: (usize, usize),
}

/// Mathematical model of a [`CognitiveUnitWithMemory`].
pub ghost struct UnitModel {
    pub memory: Seq<RecordModel>,
    pub memory_size: nat,
    pub row: nat,
    pub col: nat,
}

impl View for CognitiveUnitWithMemory {
    type V = UnitModel;

    open spec fn view(&self) -> UnitModel {
        UnitModel {
            memory: self.memory.deep_view(),
            memory_size: self.memory_size as nat,
            row: self.position.0 as nat,
            col: self.position.1 as nat,
        }
    }
}

impl DeepView for CognitiveUnitWithMemory {
    type V = UnitModel;

    open spec fn deep_view(&self) -> UnitModel {
        self.view()
    }
}

impl UnitModel {
    /// A unit is well formed when its history is non-empty and within its
    /// capacity bound.
    pub open spec fn wf(self) -> bool {
        1 <= self.memory.len() <= self.memory_size
    }

    /// The most recent record of the history.
    pub open spec fn latest(self) -> RecordModel {
        self.memory.last()
    }

    /// The `(rule, state)` projections of the whole history, oldest first.
    pub open spec fn memory_pairs(self) -> Seq<PairModel> {
        self.memory.map_values(|r: RecordModel| r.pair())
    }
}

/// How one append transforms a bounded history of capacity `k`: the record
/// goes to the back, and the oldest entry is evicted when the capacity
/// would be exceeded.
pub open spec fn push_bounded(mem: Seq<RecordModel>, r: RecordModel, k: nat) -> Seq<RecordModel> {
    let grown = mem.push(r);
    if grown.len() <= k {
        grown
    } else {
        grown.drop_first()
    }
}

fn clone_record_vec(v: &Vec<CognitiveUnitComplex>) -> (r: Vec<CognitiveUnitComplex>)
    ensures
        r.deep_view() == v.deep_view(),
{
    let mut r: Vec<CognitiveUnitComplex> = Vec::new();
    let mut i: usize = 0;
    while i < v.len()
        invariant
            i <= v.len(),
            r.deep_view() =~= v.deep_view().take(i as int),
        decreases v.len() - i,
    {
        let ghost prev = r.deep_view();
        let x = v[i].clone();
        r.push(x);
        proof {
            assert(r.deep_view() =~= prev.push(x.deep_view()));
            assert(r.deep_view() =~= v.deep_view().take(i + 1));
        }
        i += 1;
    }
    proof {
        assert(r.deep_view() =~= v.deep_view());
    }
    r
}

impl Clone for CognitiveUnitWithMemory {
    fn clone(&self) -> (r: Self)
        ensures
            r@ == self@,
    {
        CognitiveUnitWithMemory {
            memory: clone_record_vec(&self.memory),
            memory_size: self.memory_size,
            position: self.position,
        }
    }
}

/// How a whole sequence of appends transforms a bounded history: the
/// records are appended one at a time, each with the FIFO eviction of
/// [`push_bounded`].
pub open spec fn apply_appends(mem: Seq<RecordModel>, recs: Seq<RecordModel>, k: nat) -> Seq<
    RecordModel,
>
    decreases recs.len(),
{
    if recs.len() == 0 {
        mem
    } else {
        apply_appends(push_bounded(mem, recs[0], k), recs.drop_first(), k)
    }
}

/// Memory bound law: starting from a well-formed history of capacity `k`,
/// appending any sequence of records leaves exactly the most recent
/// records — the history grows to `k` entries and then keeps a sliding
/// window, oldest evicted first. In particular its length is
/// `min(mem.len() + recs.len(), k)`.
pub proof fn lemma_memory_bound(mem: Seq<RecordModel>, recs: Seq<RecordModel>, k: nat)
    requires
        1 <= mem.len() <= k,
    ensures
        ({
            let total = mem.len() + recs.len();
            let start = if total > k {
                total - k
            } else {
                0
            };
            apply_appends(mem, recs, k) == (mem + recs).subrange(start as int, total as int)
                && apply_appends(mem, recs, k).len() == if total <= k {
                total
            } else {
                k
            }
        }),
    decreases recs.len(),
{
    let total = mem.len() + recs.len();
    let start: int = if total > k {
        total - k
    } else {
        0
    };
    if recs.len() == 0 {
        assert(apply_appends(mem, recs, k) =~= (mem + recs).subrange(start, total as int));
    } else {
        let grown = push_bounded(mem, recs[0], k);
        assert(grown + recs.drop_first() =~= if mem.len() < k {
            mem + recs
        } else {
            (mem + recs).subrange(1, total as int)
        });
        lemma_memory_bound(grown, recs.drop_first(), k);
        assert(apply_appends(mem, recs, k) =~= (mem + recs).subrange(start, total as int));
    }
}

impl CognitiveUnitWithMemory {
    pub fn new(
        position: (usize, usize),
        memory: Vec<CognitiveUnitComplex>,
        memory_size: usize,
    ) -> (r: Self)
        requires
            1 <= memory.len() <= memory_size,
        ensures
            r@ == (UnitModel {
                memory: memory.deep_view(),
                memory_size: memory_size as nat,
                row: position.0 as nat,
                col: position.1 as nat,
            }),
            r@.wf(),
    {
        CognitiveUnitWithMemory { memory, memory_size, position }
    }

    /// Appends a record, evicting the oldest entry when the history is full.
    pub fn add_memory(&mut self, record: CognitiveUnitComplex)
        requires
            old(self)@.wf(),
        ensures
            final(self)@.wf(),
            final(self)@.memory == push_bounded(old(self)@.memory, record@, old(self)@.memory_size),
            final(self)@.memory.len() == if old(self)@.memory.len() < old(self)@.memory_size {
                (old(self)@.memory.len() + 1) as int
            } else {
                old(self)@.memory_size as int
            },
            final(self)@.memory_size == old(self)@.memory_size,
            final(self)@.row == old(self)@.row,
            final(self)@.col == old(self)@.col,
    {
        self.memory.push(record);
        if self.memory.len() > self.memory_size {
            self.memory.remove(0);
        }
        proof {
            assert(self@.memory =~= push_bounded(old(self)@.memory, record@, old(self)@.memory_size));
        }
    }

    /// The most recent record of the history.
    pub fn latest(&self) -> (r: &CognitiveUnitComplex)
        requires
            self@.wf(),
        ensures
            r@ == self@.latest(),
    {
        &self.memory[self.memory.len() - 1]
    }
}

} // verus!
