//! The lattice: units wired with toroidal Moore (8-neighbor) adjacency.
//!
//! The graph is an index-based adjacency list over an arena of units; the
//! topology is built once at construction and never changes afterwards,
//! while the unit payloads mutate every step.

use vstd::prelude::*;

use crate::unit::{
    CognitiveUnitComplex, CognitiveUnitPair, CognitiveUnitWithMemory, PairModel, RecordModel,
    UnitModel,
};

verus! {

/// One step down (or left) on a ring of `n` cells.
pub open spec fn torus_dec(i: usize, n: usize) -> usize {
    if i == 0 {
        (n - 1) as usize
    } else {
        (i - 1) as usize
    }
}

/// One step up (or right) on a ring of `n` cells.
pub open spec fn torus_inc(i: usize, n: usize) -> usize {
    if i + 1 == n {
        0
    } else {
        (i + 1) as usize
    }
}

/// The arena index of the cell at `(r, c)` on a lattice with `cols` columns.
pub open spec fn cell_index(cols: usize, r: usize, c: usize) -> usize {
    (r * cols + c) as usize
}

/// The eight Moore neighbor candidates of cell `(r, c)`, with toroidal
/// wraparound on both axes, in the order the edges are laid down.
pub open spec fn moore_candidates(rows: usize, cols: usize, r: usize, c: usize) -> Seq<usize> {
    let rm = torus_dec(r, rows);
    let rp = torus_inc(r, rows);
    let cm = torus_dec(c, cols);
    let cp = torus_inc(c, cols);
    seq![
        cell_index(cols, rp, c),
        cell_index(cols, rp, cp),
        cell_index(cols, r, cp),
        cell_index(cols, rm, cp),
        cell_index(cols, rm, c),
        cell_index(cols, rm, cm),
        cell_index(cols, r, cm),
        cell_index(cols, rp, cm),
    ]
}

/// One step of neighbor-list construction: a candidate is rejected when it
/// would form a self-loop or a duplicate edge.
pub open spec fn adjacency_step(acc: Seq<usize>, me: usize, x: usize) -> Seq<usize> {
    if x == me || acc.contains(x) {
        acc
    } else {
        acc.push(x)
    }
}

/// Folds [`adjacency_step`] over a candidate list, left to right.
pub open spec fn adjacency_fold(acc: Seq<usize>, me: usize, cand: Seq<usize>) -> Seq<usize>
    decreases cand.len(),
{
    if cand.len() == 0 {
        acc
    } else {
        adjacency_fold(adjacency_step(acc, me, cand[0]), me, cand.drop_first())
    }
}

/// The adjacency list of cell `k`: its Moore candidates with self-loops and
/// duplicates suppressed.
pub open spec fn neighbor_list(rows: usize, cols: usize, k: usize) -> Seq<usize> {
    adjacency_fold(
        Seq::empty(),
        k,
        moore_candidates(rows, cols, (k / cols) as usize, (k % cols) as usize),
    )
}

proof fn lemma_adjacency_fold_snoc(acc: Seq<usize>, me: usize, cand: Seq<usize>, x: usize)
    ensures
        adjacency_fold(acc, me, cand.push(x)) == adjacency_step(
            adjacency_fold(acc, me, cand),
            me,
            x,
        ),
    decreases cand.len(),
{
    let snoc = cand.push(x);
    assert(snoc.len() == cand.len() + 1);
    if cand.len() == 0 {
        assert(snoc[0] == x);
        assert(snoc.drop_first() =~= Seq::<usize>::empty());
        assert(adjacency_fold(adjacency_step(acc, me, x), me, Seq::<usize>::empty())
            == adjacency_step(acc, me, x));
    } else {
        assert(snoc[0] == cand[0]);
        assert(snoc.drop_first() =~= cand.drop_first().push(x));
        lemma_adjacency_fold_snoc(adjacency_step(acc, me, cand[0]), me, cand.drop_first(), x);
    }
}

/// The fold only ever extends the accumulator with candidates, keeps it
/// free of duplicates and of `me`, and every element of the result was
/// already accumulated or is a candidate.
proof fn lemma_adjacency_fold_closure(acc: Seq<usize>, me: usize, cand: Seq<usize>)
    requires
        acc.no_duplicates(),
        !acc.contains(me),
    ensures
        adjacency_fold(acc, me, cand).no_duplicates(),
        !adjacency_fold(acc, me, cand).contains(me),
        forall|x: usize|
            #[trigger] adjacency_fold(acc, me, cand).contains(x) ==> acc.contains(x)
                || cand.contains(x),
    decreases cand.len(),
{
    if cand.len() > 0 {
        let acc2 = adjacency_step(acc, me, cand[0]);
        lemma_adjacency_fold_closure(acc2, me, cand.drop_first());
        assert forall|x: usize|
            #[trigger] adjacency_fold(acc, me, cand).contains(x) implies acc.contains(x)
            || cand.contains(x) by {
            if acc2.contains(x) {
                if !acc.contains(x) {
                    assert(x == cand[0]);
                    assert(cand.contains(x));
                }
            } else {
                assert(cand.drop_first().contains(x));
                let i = choose|i: int| 0 <= i < cand.drop_first().len() && cand.drop_first()[i] == x;
                assert(cand[i + 1] == x);
            }
        }
    }
}

/// When the candidates are pairwise distinct, none of them is `me`, and
/// none is already in the accumulator, the fold appends them all.
proof fn lemma_adjacency_fold_all_kept(acc: Seq<usize>, me: usize, cand: Seq<usize>)
    requires
        cand.no_duplicates(),
        !cand.contains(me),
        forall|x: usize| acc.contains(x) ==> !#[trigger] cand.contains(x),
    ensures
        adjacency_fold(acc, me, cand) == acc + cand,
    decreases cand.len(),
{
    if cand.len() == 0 {
        assert(adjacency_fold(acc, me, cand) =~= acc + cand);
    } else {
        assert(cand.contains(cand[0]));
        assert(!acc.contains(cand[0]));
        assert(cand[0] != me);
        let acc2 = acc.push(cand[0]);
        assert(adjacency_step(acc, me, cand[0]) == acc2);
        assert forall|x: usize| acc2.contains(x) implies !#[trigger] cand.drop_first().contains(
            x,
        ) by {
            if cand.drop_first().contains(x) {
                let i = choose|i: int|
                    0 <= i < cand.drop_first().len() && cand.drop_first()[i] == x;
                assert(cand[i + 1] == x);
                assert(cand.contains(x));
                if acc.contains(x) {
                    assert(false);
                } else {
                    assert(x == cand[0]);
                    assert(cand[i + 1] == cand[0] && i + 1 != 0);
                    assert(false);
                }
            }
        }
        lemma_adjacency_fold_all_kept(acc2, me, cand.drop_first());
        assert(acc2 + cand.drop_first() =~= acc + cand);
    }
}

/// In-range coordinates give an in-range arena index, and the index
/// decomposes back into the coordinates by division and remainder.
proof fn lemma_cell_index_decompose(rows: usize, cols: usize, r: usize, c: usize)
    requires
        r < rows,
        c < cols,
    ensures
        r * cols + c < rows * cols,
        (r * cols + c) / (cols as int) == r,
        (r * cols + c) % (cols as int) == c,
{
    assert(r * cols + c < rows * cols && (r * cols + c) / (cols as int) == r && (r * cols + c) % (
    cols as int) == c) by (nonlinear_arith)
        requires
            r < rows,
            c < cols,
    ;
}

/// For every lattice size, an adjacency list never holds a self-loop or a
/// duplicate entry: candidates whose endpoints coincide or that are
/// already present are suppressed, which matters when a dimension is 1
/// or 2.
pub proof fn lemma_no_self_loops_or_duplicates(rows: usize, cols: usize, k: usize)
    ensures
        neighbor_list(rows, cols, k).no_duplicates(),
        !neighbor_list(rows, cols, k).contains(k),
{
    lemma_adjacency_fold_closure(
        Seq::empty(),
        k,
        moore_candidates(rows, cols, (k / cols) as usize, (k % cols) as usize),
    );
}

/// Topology law: on a toroidal lattice with both dimensions at least 3,
/// every cell has exactly eight neighbors, all distinct, all in range, and
/// none equal to the cell itself.
#[verifier::rlimit(100)]
pub proof fn lemma_toroidal_topology(rows: usize, cols: usize, k: usize)
    requires
        3 <= rows,
        3 <= cols,
        rows * cols <= usize::MAX,
        k < rows * cols,
    ensures
        neighbor_list(rows, cols, k).len() == 8,
        neighbor_list(rows, cols, k).no_duplicates(),
        !neighbor_list(rows, cols, k).contains(k),
        forall|j: int|
            0 <= j < 8 ==> #[trigger] neighbor_list(rows, cols, k)[j] < rows * cols,
        neighbor_list(rows, cols, k) == moore_candidates(
            rows,
            cols,
            (k / cols) as usize,
            (k % cols) as usize,
        ),
{
    let r = (k / cols) as usize;
    let c = (k % cols) as usize;
    assert(r < rows && c < cols && k == r * cols + c) by (nonlinear_arith)
        requires
            cols >= 1,
            rows >= 1,
            k < rows * cols,
            r == k / cols,
            c == k % cols,
    ;
    let rm = torus_dec(r, rows);
    let rp = torus_inc(r, rows);
    let cm = torus_dec(c, cols);
    let cp = torus_inc(c, cols);
    assert(rm < rows && rp < rows && cm < cols && cp < cols);
    assert(rm != r && rp != r && rm != rp);
    assert(cm != c && cp != c && cm != cp);
    let cand = moore_candidates(rows, cols, r, c);
    lemma_cell_index_decompose(rows, cols, r, c);
    lemma_cell_index_decompose(rows, cols, rp, c);
    lemma_cell_index_decompose(rows, cols, rp, cp);
    lemma_cell_index_decompose(rows, cols, r, cp);
    lemma_cell_index_decompose(rows, cols, rm, cp);
    lemma_cell_index_decompose(rows, cols, rm, c);
    lemma_cell_index_decompose(rows, cols, rm, cm);
    lemma_cell_index_decompose(rows, cols, r, cm);
    lemma_cell_index_decompose(rows, cols, rp, cm);
    assert(cand.no_duplicates());
    assert(!cand.contains(k)) by {
        if cand.contains(k) {
            let i = choose|i: int| 0 <= i < cand.len() && cand[i] == k;
            assert(false);
        }
    }
    lemma_adjacency_fold_all_kept(Seq::empty(), k, cand);
    assert(neighbor_list(rows, cols, k) =~= cand);
}

fn vec_contains_usize(v: &Vec<usize>, x: usize) -> (b: bool)
    ensures
        b == v@.contains(x),
{
    let mut i: usize = 0;
    while i < v.len()
        invariant
            i <= v.len(),
            forall|j: int| 0 <= j < i ==> v@[j] != x,
        decreases v.len() - i,
    {
        if v[i] == x {
            return true;
        }
        i += 1;
    }
    false
}

/// Builds the adjacency list of every cell of a `rows x cols` toroidal
/// lattice.
fn build_adjacency(rows: usize, cols: usize) -> (adj: Vec<Vec<usize>>)
    requires
        1 <= rows,
        1 <= cols,
        rows * cols <= usize::MAX,
    ensures
        adj.deep_view().len() == rows * cols,
        forall|k: int|
            0 <= k < adj.deep_view().len() ==> #[trigger] adj.deep_view()[k] == neighbor_list(
                rows,
                cols,
                k as usize,
            ),
{
    let n = rows * cols;
    let mut adj: Vec<Vec<usize>> = Vec::new();
    let mut k: usize = 0;
    while k < n
        invariant
            k <= n,
            n == rows * cols,
            1 <= rows,
            1 <= cols,
            adj.deep_view().len() == k,
            forall|t: int|
                0 <= t < k ==> #[trigger] adj.deep_view()[t] == neighbor_list(
                    rows,
                    cols,
                    t as usize,
                ),
        decreases n - k,
    {
        let r = k / cols;
        let c = k % cols;
        proof {
            assert(r < rows && c < cols) by (nonlinear_arith)
                requires
                    cols >= 1,
                    rows >= 1,
                    k < rows * cols,
                    r == k / cols,
                    c == k % cols,
            ;
            lemma_cell_index_decompose(rows, cols, torus_dec(r, rows), torus_dec(c, cols));
            lemma_cell_index_decompose(rows, cols, torus_dec(r, rows), c);
            lemma_cell_index_decompose(rows, cols, torus_dec(r, rows), torus_inc(c, cols));
            lemma_cell_index_decompose(rows, cols, r, torus_dec(c, cols));
            lemma_cell_index_decompose(rows, cols, r, torus_inc(c, cols));
            lemma_cell_index_decompose(rows, cols, torus_inc(r, rows), torus_dec(c, cols));
            lemma_cell_index_decompose(rows, cols, torus_inc(r, rows), c);
            lemma_cell_index_decompose(rows, cols, torus_inc(r, rows), torus_inc(c, cols));
        }
        let rm = if r == 0 {
            rows - 1
        } else {
            r - 1
        };
        let rp = if r + 1 == rows {
            0
        } else {
            r + 1
        };
        let cm = if c == 0 {
            cols - 1
        } else {
            c - 1
        };
        let cp = if c + 1 == cols {
            0
        } else {
            c + 1
        };
        let mut cand: Vec<usize> = Vec::new();
        cand.push(rp * cols + c);
        cand.push(rp * cols + cp);
        cand.push(r * cols + cp);
        cand.push(rm * cols + cp);
        cand.push(rm * cols + c);
        cand.push(rm * cols + cm);
        cand.push(r * cols + cm);
        cand.push(rp * cols + cm);
        proof {
            assert(cand@ =~= moore_candidates(rows, cols, r, c));
        }
        let mut list: Vec<usize> = Vec::new();
        let mut i: usize = 0;
        while i < cand.len()
            invariant
                i <= cand.len(),
                cand@ == moore_candidates(rows, cols, r, c),
                list@ == adjacency_fold(Seq::empty(), k, cand@.take(i as int)),
            decreases cand.len() - i,
        {
            let x = cand[i];
            proof {
                lemma_adjacency_fold_snoc(Seq::empty(), k, cand@.take(i as int), x);
                assert(cand@.take(i + 1) =~= cand@.take(i as int).push(x));
            }
            if x != k && !vec_contains_usize(&list, x) {
                list.push(x);
            }
            i += 1;
        }
        proof {
            assert(cand@.take(cand@.len() as int) =~= cand@);
            assert(list@ == neighbor_list(rows, cols, k));
        }
        let ghost prev_deep = adj.deep_view();
        let ghost list_view = list@;
        adj.push(list);
        proof {
            assert(adj.deep_view() =~~= prev_deep.push(list_view));
        }
        k += 1;
    }
    adj
}

/// The lattice: an arena of units and the fixed toroidal adjacency over it.
#[derive(Debug, PartialEq, Eq)]
pub struct CognitiveSpaceWithMemory {
    pub(crate) rows: usize,
    pub(crate) cols: usize,
    pub(crate) units: Vec<CognitiveUnitWithMemory>,
    pub(crate) adjacency: Vec<Vec<usize>>,
}

/// Mathematical model of a [`CognitiveSpaceWithMemory`].
pub ghost struct SpaceModel {
    pub rows: usize,
    pub cols: usize,
    pub units: Seq<UnitModel>,
    pub adjacency: Seq<Seq<usize>>,
}

impl View for CognitiveSpaceWithMemory {
    type V = SpaceModel;

    closed spec fn view(&self) -> SpaceModel {
        SpaceModel {
            rows: self.rows,
            cols: self.cols,
            units: self.units.deep_view(),
            adjacency: self.adjacency.deep_view(),
        }
    }
}

impl SpaceModel {
    /// A space is well formed when its arena holds one well-formed unit per
    /// cell, positions agree with arena order, and the adjacency is exactly
    /// the toroidal Moore adjacency of its dimensions.
    pub open spec fn wf(self) -> bool {
        &&& 1 <= self.rows
        &&& 1 <= self.cols
        &&& self.rows * self.cols <= usize::MAX
        &&& self.units.len() == self.rows * self.cols
        &&& self.adjacency.len() == self.units.len()
        &&& (forall|k: int| 0 <= k < self.units.len() ==> (#[trigger] self.units[k]).wf())
        &&& (forall|k: int|
            0 <= k < self.units.len() ==> (#[trigger] self.units[k]).row == k / (
            self.cols as int) && self.units[k].col == k % (self.cols as int))
        &&& (forall|k: int|
            0 <= k < self.adjacency.len() ==> #[trigger] self.adjacency[k] == neighbor_list(
                self.rows,
                self.cols,
                k as usize,
            ))
    }

    /// The latest `(rule, state)` projections of the neighbors of cell `k`,
    /// in adjacency order.
    pub open spec fn neighbor_pairs_of(self, k: int) -> Seq<PairModel> {
        self.adjacency[k].map_values(|j: usize| self.units[j as int].latest().pair())
    }
}

/// The seed list position for the cell at arena index `k` of a lattice
/// with `cols` columns: the cell's row plus its column scaled by the
/// column count, reduced modulo the seed count.
pub open spec fn seed_index(cols: usize, seed_count: int, k: int) -> int {
    (k / (cols as int) + (k % (cols as int)) * (cols as int)) % seed_count
}

/// The record every unit is seeded with at construction.
pub open spec fn seed_record(timestamp: u64, pair: PairModel) -> RecordModel {
    RecordModel {
        timestamp,
        rule: pair.rule,
        state: pair.state,
        neighbors: Seq::empty(),
        feedback: Seq::empty(),
    }
}

/// Builds a `rows x cols` toroidal lattice. Cell `(r, c)` is seeded with
/// one record holding the rule and state of
/// `seeds[(r + c * cols) % seeds.len()]`.
pub fn build_lattice_with_memory(
    rows: usize,
    cols: usize,
    memory_size: usize,
    seeds: &Vec<CognitiveUnitPair>,
    timestamp: u64,
) -> (space: CognitiveSpaceWithMemory)
    requires
        1 <= rows,
        1 <= cols,
        rows * cols <= usize::MAX,
        1 <= memory_size,
        1 <= seeds.len(),
    ensures
        space@.wf(),
        space@.rows == rows,
        space@.cols == cols,
        forall|k: int|
            0 <= k < space@.units.len() ==> (#[trigger] space@.units[k]).memory =~= seq![
                seed_record(timestamp, seeds.deep_view()[seed_index(cols, seeds.len() as int, k)]),
            ],
        forall|k: int|
            0 <= k < space@.units.len() ==> (#[trigger] space@.units[k]).memory_size
                == memory_size,
{
    let n = rows * cols;
    let mut units: Vec<CognitiveUnitWithMemory> = Vec::new();
    let mut k: usize = 0;
    while k < n
        invariant
            k <= n,
            n == rows * cols,
            1 <= rows,
            1 <= cols,
            1 <= memory_size,
            1 <= seeds.len(),
            units.deep_view().len() == k,
            forall|t: int|
                0 <= t < k ==> (#[trigger] units.deep_view()[t]).memory =~= seq![
                    seed_record(
                        timestamp,
                        seeds.deep_view()[seed_index(cols, seeds.len() as int, t)],
                    ),
                ],
            forall|t: int|
                0 <= t < k ==> (#[trigger] units.deep_view()[t]).memory_size == memory_size
                    && units.deep_view()[t].wf() && units.deep_view()[t].row == t / (cols as int)
                    && units.deep_view()[t].col == t % (cols as int),
        decreases n - k,
    {
        let row = k / cols;
        let col = k % cols;
        proof {
            assert(col as int <= u64::MAX);
            assert(cols as int <= u64::MAX);
            assert((col as int) * (cols as int) <= (u64::MAX as int) * (u64::MAX as int))
                by (nonlinear_arith)
                requires
                    0 <= col as int <= u64::MAX,
                    0 <= cols as int <= u64::MAX,
            ;
        }
        let idx = ((row as u128 + (col as u128) * (cols as u128)) % (seeds.len() as u128))
            as usize;
        proof {
            assert(idx as int == seed_index(cols, seeds.len() as int, k as int));
            assert(idx < seeds.len());
        }
        let seed = &seeds[idx];
        let record = CognitiveUnitComplex::new(
            timestamp,
            seed.rule.clone(),
            seed.state.clone(),
            Vec::new(),
            String::new(),
        );
        let ghost record_view = record@;
        proof {
            assert(record_view.neighbors =~= Seq::<Seq<char>>::empty());
            assert(record_view == seed_record(
                timestamp,
                seeds.deep_view()[seed_index(cols, seeds.len() as int, k as int)],
            ));
        }
        let mut memory: Vec<CognitiveUnitComplex> = Vec::new();
        memory.push(record);
        proof {
            assert(memory.deep_view() =~= seq![record_view]);
        }
        let unit = CognitiveUnitWithMemory::new((k / cols, k % cols), memory, memory_size);
        let ghost prev = units.deep_view();
        let ghost unit_view = unit@;
        units.push(unit);
        proof {
            assert(units.deep_view() =~= prev.push(unit_view));
            assert(unit_view.memory =~= seq![
                seed_record(
                    timestamp,
                    seeds.deep_view()[seed_index(cols, seeds.len() as int, k as int)],
                ),
            ]);
        }
        k += 1;
    }
    let adjacency = build_adjacency(rows, cols);
    let space = CognitiveSpaceWithMemory { rows, cols, units, adjacency };
    space
}

impl CognitiveSpaceWithMemory {
    /// Number of rows of the lattice.
    pub fn rows(&self) -> (r: usize)
        ensures
            r == self@.rows,
    {
        self.rows
    }

    /// Number of columns of the lattice.
    pub fn cols(&self) -> (r: usize)
        ensures
            r == self@.cols,
    {
        self.cols
    }

    /// Number of cells of the lattice.
    pub fn unit_count(&self) -> (r: usize)
        ensures
            r == self@.units.len(),
    {
        self.units.len()
    }

    /// Read-only access to the unit at arena index `k`.
    pub fn unit_at(&self, k: usize) -> (r: &CognitiveUnitWithMemory)
        requires
            k < self@.units.len(),
        ensures
            r@ == self@.units[k as int],
    {
        &self.units[k]
    }

    /// Read-only access to the adjacency list of the cell at arena index
    /// `k`.
    pub fn neighbor_indices(&self, k: usize) -> (r: &Vec<usize>)
        requires
            k < self@.adjacency.len(),
        ensures
            r.deep_view() == self@.adjacency[k as int],
    {
        &self.adjacency[k]
    }

    /// A snapshot copy of every unit of the lattice, in arena order.
    pub fn get_units(&self) -> (r: Vec<CognitiveUnitWithMemory>)
        ensures
            r.deep_view() == self@.units,
    {
        let mut r: Vec<CognitiveUnitWithMemory> = Vec::new();
        let mut i: usize = 0;
        while i < self.units.len()
            invariant
                i <= self.units.len(),
                r.deep_view() =~= self.units.deep_view().take(i as int),
            decreases self.units.len() - i,
        {
            let ghost prev = r.deep_view();
            let x = self.units[i].clone();
            r.push(x);
            proof {
                assert(r.deep_view() =~= prev.push(x.deep_view()));
                assert(r.deep_view() =~= self.units.deep_view().take(i + 1));
            }
            i += 1;
        }
        proof {
            assert(r.deep_view() =~= self.units.deep_view());
        }
        r
    }

    /// Injects a unit's history directly into the cell at `(row, col)`,
    /// bypassing the resolver path. Only the history and its capacity are
    /// taken from `unit`: the cell keeps its position and its edges.
    pub fn set_unit(&mut self, row: usize, col: usize, unit: CognitiveUnitWithMemory)
        requires
            old(self)@.wf(),
            row < old(self)@.rows,
            col < old(self)@.cols,
            unit@.wf(),
        ensures
            final(self)@.wf(),
            final(self)@.rows == old(self)@.rows,
            final(self)@.cols == old(self)@.cols,
            final(self)@.adjacency == old(self)@.adjacency,
            final(self)@.units == old(self)@.units.update(
                row * old(self)@.cols + col,
                UnitModel {
                    memory: unit@.memory,
                    memory_size: unit@.memory_size,
                    row: old(self)@.units[row * old(self)@.cols + col].row,
                    col: old(self)@.units[row * old(self)@.cols + col].col,
                },
            ),
    {
        proof {
            lemma_cell_index_decompose(self.rows, self.cols, row, col);
        }
        let k = row * self.cols + col;
        let target = &mut self.units[k];
        let position = target.position;
        *target = CognitiveUnitWithMemory::new(position, unit.memory, unit.memory_size);
        proof {
            assert(self.units.deep_view() =~= old(self).units.deep_view().update(
                k as int,
                self.units.deep_view()[k as int],
            ));
        }
    }

    /// The latest `(rule, state)` projections of the neighbors of cell `k`,
    /// read from the current arena, in adjacency order.
    pub fn neighbor_pairs(&self, k: usize) -> (r: Vec<CognitiveUnitPair>)
        requires
            self@.wf(),
            k < self@.units.len(),
        ensures
            r.deep_view() == self@.neighbor_pairs_of(k as int),
    {
        let adj = &self.adjacency[k];
        let mut r: Vec<CognitiveUnitPair> = Vec::new();
        let mut i: usize = 0;
        proof {
            lemma_toroidal_neighbors_in_range(self@, k as int);
            assert(adj@ =~= self@.adjacency[k as int]);
        }
        while i < adj.len()
            invariant
                i <= adj.len(),
                self@.wf(),
                k < self@.units.len(),
                adj@ == self@.adjacency[k as int],
                forall|j: int| 0 <= j < adj@.len() ==> #[trigger] adj@[j] < self@.units.len(),
                r.deep_view() =~= self@.neighbor_pairs_of(k as int).take(i as int),
            decreases adj.len() - i,
        {
            let j = adj[i];
            proof {
                assert(j < self@.units.len());
                assert(self@.units[j as int].wf());
                assert(self.units@[j as int]@ == self@.units[j as int]);
            }
            let pair = self.units[j].latest().to_pair();
            let ghost prev = r.deep_view();
            r.push(pair);
            proof {
                assert(r.deep_view() =~= prev.push(pair@));
                assert(r.deep_view() =~= self@.neighbor_pairs_of(k as int).take(i + 1));
            }
            i += 1;
        }
        proof {
            assert(r.deep_view() =~= self@.neighbor_pairs_of(k as int));
        }
        r
    }
}

impl CognitiveSpaceWithMemory {
    /// Reassembles a space from its dimensions and its arena of units,
    /// rebuilding the fixed toroidal adjacency.
    pub fn from_parts(rows: usize, cols: usize, units: Vec<CognitiveUnitWithMemory>) -> (space:
        Self)
        requires
            1 <= rows,
            1 <= cols,
            rows * cols <= usize::MAX,
            units.deep_view().len() == rows * cols,
            forall|k: int|
                0 <= k < units.deep_view().len() ==> (#[trigger] units.deep_view()[k]).wf(),
            forall|k: int|
                0 <= k < units.deep_view().len() ==> (#[trigger] units.deep_view()[k]).row == k / (
                cols as int) && units.deep_view()[k].col == k % (cols as int),
        ensures
            space@.wf(),
            space@.rows == rows,
            space@.cols == cols,
            space@.units == units.deep_view(),
    {
        let adjacency = build_adjacency(rows, cols);
        CognitiveSpaceWithMemory { rows, cols, units, adjacency }
    }

    /// Appends one record to the history of the unit at arena index `k`,
    /// under the bounded FIFO eviction of the unit. Everything else is
    /// untouched.
    pub fn apply_record(&mut self, k: usize, record: CognitiveUnitComplex)
        requires
            old(self)@.wf(),
            k < old(self)@.units.len(),
        ensures
            final(self)@.wf(),
            final(self)@.rows == old(self)@.rows,
            final(self)@.cols == old(self)@.cols,
            final(self)@.adjacency == old(self)@.adjacency,
            final(self)@.units == old(self)@.units.update(
                k as int,
                UnitModel {
                    memory: crate::unit::push_bounded(
                        old(self)@.units[k as int].memory,
                        record@,
                        old(self)@.units[k as int].memory_size,
                    ),
                    ..old(self)@.units[k as int]
                },
            ),
    {
        let ghost record_view = record@;
        proof {
            assert(self.units@[k as int]@ == self@.units[k as int]);
        }
        let unit = &mut self.units[k];
        unit.add_memory(record);
        proof {
            assert(self.units.deep_view() =~= old(self)@.units.update(
                k as int,
                UnitModel {
                    memory: crate::unit::push_bounded(
                        old(self)@.units[k as int].memory,
                        record_view,
                        old(self)@.units[k as int].memory_size,
                    ),
                    ..old(self)@.units[k as int]
                },
            ));
        }
    }
}

proof fn lemma_torus_inverses(x: usize, n: usize)
    requires
        x < n,
        n >= 2,
    ensures
        torus_dec(torus_inc(x, n), n) == x,
        torus_inc(torus_dec(x, n), n) == x,
{
}

#[verifier::rlimit(100)]
proof fn lemma_neighbor_symmetry_one(rows: usize, cols: usize, k: usize, l: usize)
    requires
        3 <= rows,
        3 <= cols,
        rows * cols <= usize::MAX,
        k < rows * cols,
        l < rows * cols,
        neighbor_list(rows, cols, k).contains(l),
    ensures
        neighbor_list(rows, cols, l).contains(k),
{
    lemma_toroidal_topology(rows, cols, k);
    lemma_toroidal_topology(rows, cols, l);
    let rk = (k / cols) as usize;
    let ck = (k % cols) as usize;
    let rl = (l / cols) as usize;
    let cl = (l % cols) as usize;
    assert(rk < rows && ck < cols && k == rk * cols + ck) by (nonlinear_arith)
        requires
            cols >= 1,
            rows >= 1,
            k < rows * cols,
            rk == k / cols,
            ck == k % cols,
    ;
    assert(rl < rows && cl < cols && l == rl * cols + cl) by (nonlinear_arith)
        requires
            cols >= 1,
            rows >= 1,
            l < rows * cols,
            rl == l / cols,
            cl == l % cols,
    ;
    let rm = torus_dec(rk, rows);
    let rp = torus_inc(rk, rows);
    let cm = torus_dec(ck, cols);
    let cp = torus_inc(ck, cols);
    assert(rm < rows && rp < rows && cm < cols && cp < cols);
    lemma_torus_inverses(rk, rows);
    lemma_torus_inverses(ck, cols);
    lemma_cell_index_decompose(rows, cols, rp, ck);
    lemma_cell_index_decompose(rows, cols, rp, cp);
    lemma_cell_index_decompose(rows, cols, rk, cp);
    lemma_cell_index_decompose(rows, cols, rm, cp);
    lemma_cell_index_decompose(rows, cols, rm, ck);
    lemma_cell_index_decompose(rows, cols, rm, cm);
    lemma_cell_index_decompose(rows, cols, rk, cm);
    lemma_cell_index_decompose(rows, cols, rp, cm);
    let candk = moore_candidates(rows, cols, rk, ck);
    let candl = moore_candidates(rows, cols, rl, cl);
    let j = choose|j: int| 0 <= j < candk.len() && candk[j] == l;
    if j == 0 {
        assert(rl == rp && cl == ck);
        assert(candl[4] == cell_index(cols, torus_dec(rl, rows), cl));
        assert(torus_dec(rl, rows) == rk);
        assert(candl[4] == k);
    } else if j == 1 {
        assert(rl == rp && cl == cp);
        assert(candl[5] == cell_index(cols, torus_dec(rl, rows), torus_dec(cl, cols)));
        assert(candl[5] == k);
    } else if j == 2 {
        assert(rl == rk && cl == cp);
        assert(candl[6] == cell_index(cols, rl, torus_dec(cl, cols)));
        assert(candl[6] == k);
    } else if j == 3 {
        assert(rl == rm && cl == cp);
        assert(candl[7] == cell_index(cols, torus_inc(rl, rows), torus_dec(cl, cols)));
        assert(candl[7] == k);
    } else if j == 4 {
        assert(rl == rm && cl == ck);
        assert(candl[0] == cell_index(cols, torus_inc(rl, rows), cl));
        assert(candl[0] == k);
    } else if j == 5 {
        assert(rl == rm && cl == cm);
        assert(candl[1] == cell_index(cols, torus_inc(rl, rows), torus_inc(cl, cols)));
        assert(candl[1] == k);
    } else if j == 6 {
        assert(rl == rk && cl == cm);
        assert(candl[2] == cell_index(cols, rl, torus_inc(cl, cols)));
        assert(candl[2] == k);
    } else {
        assert(rl == rp && cl == cm);
        assert(candl[3] == cell_index(cols, torus_dec(rl, rows), torus_inc(cl, cols)));
        assert(candl[3] == k);
    }
    assert(candl.contains(k));
}

/// Undirectedness law: the toroidal adjacency is symmetric — cell `l` is a
/// neighbor of cell `k` exactly when `k` is a neighbor of `l`.
pub proof fn lemma_adjacency_symmetric(rows: usize, cols: usize, k: usize, l: usize)
    requires
        3 <= rows,
        3 <= cols,
        rows * cols <= usize::MAX,
        k < rows * cols,
        l < rows * cols,
    ensures
        neighbor_list(rows, cols, k).contains(l) <==> neighbor_list(rows, cols, l).contains(k),
{
    if neighbor_list(rows, cols, k).contains(l) {
        lemma_neighbor_symmetry_one(rows, cols, k, l);
    }
    if neighbor_list(rows, cols, l).contains(k) {
        lemma_neighbor_symmetry_one(rows, cols, l, k);
    }
}

/// In a well-formed space, every adjacency entry is a valid arena index.
pub proof fn lemma_toroidal_neighbors_in_range(m: SpaceModel, k: int)
    requires
        m.wf(),
        0 <= k < m.units.len(),
    ensures
        forall|j: int|
            0 <= j < m.adjacency[k].len() ==> #[trigger] m.adjacency[k][j] < m.units.len(),
{
    let r = ((k as usize) / m.cols) as usize;
    let c = ((k as usize) % m.cols) as usize;
    assert(r < m.rows && c < m.cols) by (nonlinear_arith)
        requires
            m.cols >= 1,
            m.rows >= 1,
            0 <= k < m.rows * m.cols,
            r == (k as usize) / m.cols,
            c == (k as usize) % m.cols,
    ;
    let rm = torus_dec(r, m.rows);
    let rp = torus_inc(r, m.rows);
    let cm = torus_dec(c, m.cols);
    let cp = torus_inc(c, m.cols);
    lemma_cell_index_decompose(m.rows, m.cols, rm, cm);
    lemma_cell_index_decompose(m.rows, m.cols, rm, c);
    lemma_cell_index_decompose(m.rows, m.cols, rm, cp);
    lemma_cell_index_decompose(m.rows, m.cols, r, cm);
    lemma_cell_index_decompose(m.rows, m.cols, r, cp);
    lemma_cell_index_decompose(m.rows, m.cols, rp, cm);
    lemma_cell_index_decompose(m.rows, m.cols, rp, c);
    lemma_cell_index_decompose(m.rows, m.cols, rp, cp);
    let cand = moore_candidates(m.rows, m.cols, r, c);
    lemma_adjacency_fold_closure(Seq::empty(), k as usize, cand);
    assert forall|j: int|
        0 <= j < m.adjacency[k].len() implies #[trigger] m.adjacency[k][j] < m.units.len() by {
        assert(m.adjacency[k] == neighbor_list(m.rows, m.cols, k as usize));
        assert(neighbor_list(m.rows, m.cols, k as usize).contains(m.adjacency[k][j]));
        assert(cand.contains(m.adjacency[k][j]) || Seq::<usize>::empty().contains(
            m.adjacency[k][j],
        ));
        let x = m.adjacency[k][j];
        let t = choose|t: int| 0 <= t < cand.len() && cand[t] == x;
        assert(cand[t] == x);
    }
}

} // verus!
