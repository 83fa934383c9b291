//! One persistent, resumable simulation instance: an identity, a step
//! counter, a lattice, and the evolution guard that admits at most one
//! in-flight evolution.

use vstd::prelude::*;
use vstd::string::StringExecFns;

use crate::outside::{md5_hex, md5_hex_of};
use crate::space::{
    build_lattice_with_memory, seed_index, seed_record, CognitiveSpaceWithMemory, SpaceModel,
};
use crate::unit::CognitiveUnitPair;

verus! {

/// The evolution state machine of an entity. The machine cycles between
/// the two states for the life of the process; there is no terminal state.
#[derive(Clone, Copy, Debug, PartialEq, Eq, Structural)]
pub enum EntityState {
    /// An evolution toward the given step number is in flight.
    ComputingStep(u32),
    /// No evolution is in flight.
    Idle,
}

/// The decimal digit characters of `n`, most significant first.
pub open spec fn dec_digits(n: nat) -> Seq<char>
    decreases n,
{
    if n < 10 {
        seq![digit_char(n)]
    } else {
        dec_digits(n / 10).push(digit_char(n % 10))
    }
}

/// The character of one decimal digit.
pub open spec fn digit_char(d: nat) -> char {
    if d == 0 {
        '0'
    } else if d == 1 {
        '1'
    } else if d == 2 {
        '2'
    } else if d == 3 {
        '3'
    } else if d == 4 {
        '4'
    } else if d == 5 {
        '5'
    } else if d == 6 {
        '6'
    } else if d == 7 {
        '7'
    } else if d == 8 {
        '8'
    } else {
        '9'
    }
}

fn push_digit(s: &mut String, d: u64)
    requires
        d < 10,
    ensures
        final(s)@ == old(s)@.push(digit_char(d as nat)),
{
    if d == 0 {
        s.append("0");
    } else if d == 1 {
        s.append("1");
    } else if d == 2 {
        s.append("2");
    } else if d == 3 {
        s.append("3");
    } else if d == 4 {
        s.append("4");
    } else if d == 5 {
        s.append("5");
    } else if d == 6 {
        s.append("6");
    } else if d == 7 {
        s.append("7");
    } else if d == 8 {
        s.append("8");
    } else {
        s.append("9");
    }
    proof {
        reveal_strlit("0");
        reveal_strlit("1");
        reveal_strlit("2");
        reveal_strlit("3");
        reveal_strlit("4");
        reveal_strlit("5");
        reveal_strlit("6");
        reveal_strlit("7");
        reveal_strlit("8");
        reveal_strlit("9");
        assert(s@ =~= old(s)@.push(digit_char(d as nat)));
    }
}

/// Writes `n` in decimal.
pub fn u64_to_dec_string(n: u64) -> (r: String)
    ensures
        r@ == dec_digits(n as nat),
    decreases n,
{
    if n < 10 {
        let mut s = String::new();
        push_digit(&mut s, n);
        proof {
            assert(s@ =~= dec_digits(n as nat));
        }
        s
    } else {
        let mut s = u64_to_dec_string(n / 10);
        push_digit(&mut s, n % 10);
        s
    }
}

/// One persistent simulation instance.
pub struct Entity {
    id: String,
    step: u32,
    space: CognitiveSpaceWithMemory,
    state: EntityState,
}

/// Mathematical model of an [`Entity`].
pub ghost struct EntityModel {
    pub id: Seq<char>,
    pub step: u32,
    pub space: SpaceModel,
    pub state: EntityState,
}

impl View for Entity {
    type V = EntityModel;

    closed spec fn view(&self) -> EntityModel {
        EntityModel { id: self.id@, step: self.step, space: self.space@, state: self.state }
    }
}

impl DeepView for Entity {
    type V = EntityModel;

    open spec fn deep_view(&self) -> EntityModel {
        self.view()
    }
}

impl EntityModel {
    /// The space is well formed, and an in-flight evolution always aims at
    /// exactly the next step.
    pub open spec fn wf(self) -> bool {
        &&& self.space.wf()
        &&& match self.state {
            EntityState::ComputingStep(n) => n == self.step + 1,
            EntityState::Idle => true,
        }
    }
}

/// The identity an entity derives at creation: the digest of its initial
/// snapshot, then its creation time.
pub open spec fn derived_id(space: SpaceModel, timestamp: u64) -> Seq<char> {
    md5_hex_of(crate::codec::enc_space(space)) + seq!['-'] + dec_digits(timestamp as nat)
}

/// What one `evolve` request does to an entity: an idle entity accepts and
/// starts computing the next step; an entity already computing rejects the
/// request and is left exactly as it was.
pub open spec fn evolve_transition(m: EntityModel) -> (EntityModel, bool) {
    match m.state {
        EntityState::Idle => (
            EntityModel { state: EntityState::ComputingStep((m.step + 1) as u32), ..m },
            true,
        ),
        EntityState::ComputingStep(_) => (m, false),
    }
}

/// Single in-flight evolution law: from an idle entity, the first of two
/// back-to-back `evolve` requests is the only one accepted — it moves the
/// machine to `ComputingStep(step + 1)`, and the second request is a no-op
/// that changes nothing.
pub proof fn lemma_single_inflight_evolution(m: EntityModel)
    requires
        m.wf(),
        m.state is Idle,
        m.step < u32::MAX,
    ensures
        ({
            let (m1, accepted1) = evolve_transition(m);
            let (m2, accepted2) = evolve_transition(m1);
            &&& accepted1
            &&& m1.state == EntityState::ComputingStep((m.step + 1) as u32)
            &&& m1.wf()
            &&& !accepted2
            &&& m2 == m1
        }),
{
}

impl Entity {
    /// Creates a fresh entity over a newly built toroidal lattice. Its
    /// identity is derived from the digest of the initial snapshot and the
    /// creation time, and its step counter starts at zero. The caller
    /// persists the first snapshot.
    pub fn new_2d_lattice(
        seeds: &Vec<CognitiveUnitPair>,
        rows: usize,
        cols: usize,
        memory_size: usize,
        timestamp: u64,
    ) -> (r: Entity)
        requires
            1 <= rows,
            1 <= cols,
            rows * cols <= usize::MAX,
            1 <= memory_size,
            1 <= seeds.len(),
        ensures
            r@.wf(),
            r@.step == 0,
            r@.state is Idle,
            r@.id == derived_id(r@.space, timestamp),
            r@.space.rows == rows,
            r@.space.cols == cols,
            forall|k: int|
                0 <= k < r@.space.units.len() ==> (#[trigger] r@.space.units[k]).memory =~= seq![
                    seed_record(
                        timestamp,
                        seeds.deep_view()[seed_index(cols, seeds.len() as int, k)],
                    ),
                ],
            forall|k: int|
                0 <= k < r@.space.units.len() ==> (#[trigger] r@.space.units[k]).memory_size
                    == memory_size,
    {
        let space = build_lattice_with_memory(rows, cols, memory_size, seeds, timestamp);
        let snapshot = space.serialize();
        let mut id = md5_hex(&snapshot);
        id.append("-");
        let suffix = u64_to_dec_string(timestamp);
        id.append(suffix.as_str());
        proof {
            reveal_strlit("-");
            assert(id@ =~= derived_id(space@, timestamp));
        }
        Entity { id, step: 0, space, state: EntityState::Idle }
    }

    /// Reassembles an entity from its persisted identity, step counter and
    /// snapshot, as read back from storage.
    pub fn from_parts(id: String, step: u32, space: CognitiveSpaceWithMemory) -> (r: Entity)
        requires
            space@.wf(),
        ensures
            r@.wf(),
            r@.id == id@,
            r@.step == step,
            r@.space == space@,
            r@.state is Idle,
    {
        Entity { id, step, space, state: EntityState::Idle }
    }

    /// The immutable identity of this entity.
    pub fn id(&self) -> (r: &str)
        ensures
            r@ == self@.id,
    {
        self.id.as_str()
    }

    /// Whether this entity carries the given identity.
    pub fn id_matches(&self, id: &str) -> (b: bool)
        ensures
            b == (self@.id == id@),
    {
        self.id.eq(&id.to_owned())
    }

    /// The number of completed steps.
    pub fn current_step(&self) -> (r: u32)
        ensures
            r == self@.step,
    {
        self.step
    }

    /// Read-only access to the live lattice. While an evolution is in
    /// flight this may observe a partially updated space: such reads are
    /// approximate by design, never torn below the level of one unit.
    pub fn space(&self) -> (r: &CognitiveSpaceWithMemory)
        ensures
            r@ == self@.space,
    {
        &self.space
    }

    /// Mutable access to the live lattice, for the caller driving the
    /// chunks of an in-flight evolution.
    pub fn space_mut(&mut self) -> (r: &mut CognitiveSpaceWithMemory)
        ensures
            (*r)@ == old(self)@.space,
            final(self)@.space == (*final(r))@,
            final(self)@.id == old(self)@.id,
            final(self)@.step == old(self)@.step,
            final(self)@.state == old(self)@.state,
    {
        &mut self.space
    }

    /// The current state of the evolution guard.
    pub fn state(&self) -> (r: EntityState)
        ensures
            r == self@.state,
    {
        self.state
    }

    /// Requests an evolution: accepted only when the entity is idle, in
    /// which case the guard moves to `ComputingStep(step + 1)`. A request
    /// made while one evolution is already in flight is rejected as a
    /// no-op — an expected race under concurrent use, not an error.
    pub fn evolve(&mut self) -> (accepted: bool)
        requires
            old(self)@.wf(),
            old(self)@.step < u32::MAX,
        ensures
            final(self)@.wf(),
            (final(self)@, accepted) == evolve_transition(old(self)@),
    {
        match self.state {
            EntityState::Idle => {
                self.state = EntityState::ComputingStep(self.step + 1);
                true
            },
            EntityState::ComputingStep(_) => false,
        }
    }

    /// Completes the in-flight evolution: the step counter advances to the
    /// step that was being computed, and the guard returns to idle. The
    /// caller persists the new snapshot.
    pub fn complete_evolution(&mut self)
        requires
            old(self)@.wf(),
            old(self)@.state is ComputingStep,
        ensures
            final(self)@.wf(),
            final(self)@.state is Idle,
            final(self)@.step == old(self)@.step + 1,
            final(self)@.id == old(self)@.id,
            final(self)@.space == old(self)@.space,
    {
        match self.state {
            EntityState::ComputingStep(n) => {
                self.step = n;
                self.state = EntityState::Idle;
            },
            EntityState::Idle => {
            },
        }
    }

    /// Abandons the in-flight evolution: the guard returns to idle and the
    /// step counter is untouched, so a failed evolution never leaves the
    /// entity stuck.
    pub fn abort_evolution(&mut self)
        requires
            old(self)@.wf(),
        ensures
            final(self)@.wf(),
            final(self)@.state is Idle,
            final(self)@.step == old(self)@.step,
            final(self)@.id == old(self)@.id,
            final(self)@.space == old(self)@.space,
    {
        self.state = EntityState::Idle;
    }

    /// The distinct latest states across all units, for inspection.
    pub fn calculate_unique_states(&self) -> (r: Vec<String>)
        requires
            self@.wf(),
        ensures
            r.deep_view().no_duplicates(),
            forall|s: Seq<char>|
                #[trigger] r.deep_view().contains(s) <==> exists|k: int|
                    0 <= k < self@.space.units.len() && (#[trigger] self@.space.units[k]).latest().state
                        == s,
    {
        let space = &self.space;
        let n = space.unit_count();
        let mut r: Vec<String> = Vec::new();
        let mut k: usize = 0;
        while k < n
            invariant
                k <= n,
                n == self@.space.units.len(),
                self@.wf(),
                space@ == self@.space,
                r.deep_view().no_duplicates(),
                forall|s: Seq<char>|
                    #[trigger] r.deep_view().contains(s) <==> exists|j: int|
                        0 <= j < k && (#[trigger] self@.space.units[j]).latest().state == s,
            decreases n - k,
        {
            proof {
                assert(self@.space.units[k as int].wf());
            }
            let latest_state = space.unit_at(k).latest().state.clone();
            let ghost latest_view = latest_state@;
            proof {
                assert(latest_view == self@.space.units[k as int].latest().state);
            }
            if !vec_contains_string(&r, &latest_state) {
                let ghost prev = r.deep_view();
                r.push(latest_state);
                proof {
                    assert(r.deep_view() =~= prev.push(latest_view));
                    assert(r.deep_view().last() == latest_view);
                    assert(r.deep_view().contains(latest_view));
                    assert forall|s: Seq<char>| #[trigger] r.deep_view().contains(s) implies (
                    exists|j: int|
                        0 <= j < k + 1 && (#[trigger] self@.space.units[j]).latest().state
                            == s) by {
                        let t = choose|t: int| 0 <= t < r.deep_view().len() && r.deep_view()[t] == s;
                        if t < prev.len() {
                            assert(prev.contains(s));
                        } else {
                            assert(s == latest_view);
                            assert(self@.space.units[k as int].latest().state == s);
                        }
                    }
                    assert forall|s: Seq<char>|
                        (exists|j: int|
                            0 <= j < k + 1 && (#[trigger] self@.space.units[j]).latest().state
                                == s) implies #[trigger] r.deep_view().contains(s) by {
                        let j = choose|j: int|
                            0 <= j < k + 1 && self@.space.units[j].latest().state == s;
                        if j < k {
                            assert(prev.contains(s));
                            let t = choose|t: int| 0 <= t < prev.len() && prev[t] == s;
                            assert(r.deep_view()[t] == s);
                        } else {
                            assert(s == latest_view);
                        }
                    }
                }
            } else {
                proof {
                    assert(r.deep_view().contains(latest_view));
                    assert forall|s: Seq<char>|
                        (exists|j: int|
                            0 <= j < k + 1 && (#[trigger] self@.space.units[j]).latest().state
                                == s) implies #[trigger] r.deep_view().contains(s) by {
                        let j = choose|j: int|
                            0 <= j < k + 1 && self@.space.units[j].latest().state == s;
                        if j == k {
                            assert(s == latest_view);
                        }
                    }
                }
            }
            k += 1;
        }
        r
    }
}

fn vec_contains_string(v: &Vec<String>, x: &String) -> (b: bool)
    ensures
        b == v.deep_view().contains(x@),
{
    let mut i: usize = 0;
    while i < v.len()
        invariant
            i <= v.len(),
            forall|j: int| 0 <= j < i ==> v.deep_view()[j] != x@,
        decreases v.len() - i,
    {
        if v[i].eq(x) {
            proof {
                assert(v.deep_view()[i as int] == v@[i as int]@);
                assert(v.deep_view()[i as int] == x@);
            }
            return true;
        }
        proof {
            assert(v.deep_view()[i as int] == v@[i as int]@);
        }
        i += 1;
    }
    false
}

} // verus!
