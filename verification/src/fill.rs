use vstd::prelude::*;

use std::collections::HashMap;

verus! {

broadcast use vstd::std_specs::hash::group_hash_axioms;

/// A cell of the fill grid, as (column, row).
pub type Cell = (i32, i32);

/// The eight Moore-neighbourhood steps, counter-clockwise from east:
/// E, SE, S, SW, W, NW, N, NE (with the row axis pointing up).
pub open spec fn step_of(dir: int) -> (int, int) {
    if dir == 0 {
        (1, 0)
    } else if dir == 1 {
        (1, -1)
    } else if dir == 2 {
        (0, -1)
    } else if dir == 3 {
        (-1, -1)
    } else if dir == 4 {
        (-1, 0)
    } else if dir == 5 {
        (-1, 1)
    } else if dir == 6 {
        (0, 1)
    } else {
        (1, 1)
    }
}

/// Two different cells that touch, by side or by corner.
pub open spec fn adjacent(a: Cell, b: Cell) -> bool {
    &&& a != b
    &&& -1 <= a.0 - b.0 <= 1
    &&& -1 <= a.1 - b.1 <= 1
}

/// Lexicographic order on cells: by column, then by row.
pub open spec fn cell_lt(a: Cell, b: Cell) -> bool {
    a.0 < b.0 || (a.0 == b.0 && a.1 < b.1)
}

/// A cell far enough from the edge of `i32` for two grid steps in any direction.
pub open spec fn cell_in_range(p: Cell) -> bool {
    &&& i32::MIN + 2 <= p.0 <= i32::MAX - 2
    &&& i32::MIN + 2 <= p.1 <= i32::MAX - 2
}

/// A cell at most one step away from a cell in range.
pub open spec fn cell_near_range(p: Cell) -> bool {
    &&& i32::MIN + 1 <= p.0 <= i32::MAX - 1
    &&& i32::MIN + 1 <= p.1 <= i32::MAX - 1
}

/// The 64-bit key of a cell: its column's bits above its row's bits.
pub open spec fn cell_key(p: Cell) -> u64 {
    (((p.0 as u32) as u64) << 32u64) | ((p.1 as u32) as u64)
}

/// Computes `cell_key`.
pub fn key_of(p: Cell) -> (k: u64)
    ensures
        k == cell_key(p),
{
    (((p.0 as u32) as u64) << 32u64) | ((p.1 as u32) as u64)
}

/// Different cells have different keys.
pub proof fn lemma_cell_key_injective(a: Cell, b: Cell)
    ensures
        cell_key(a) == cell_key(b) ==> a == b,
{
    let (a0, a1) = a;
    let (b0, b1) = b;
    assert((((a0 as u32) as u64) << 32u64) | ((a1 as u32) as u64) == (((b0 as u32) as u64) << 32u64) | ((b1 as u32) as u64)
        ==> a0 == b0 && a1 == b1) by (bit_vector);
}

fn step(dir: usize) -> (r: (i32, i32))
    requires
        dir < 8,
    ensures
        r.0 == step_of(dir as int).0,
        r.1 == step_of(dir as int).1,
{
    if dir == 0 {
        (1, 0)
    } else if dir == 1 {
        (1, -1)
    } else if dir == 2 {
        (0, -1)
    } else if dir == 3 {
        (-1, -1)
    } else if dir == 4 {
        (-1, 0)
    } else if dir == 5 {
        (-1, 1)
    } else if dir == 6 {
        (0, 1)
    } else {
        (1, 1)
    }
}

spec fn term(present: Seq<bool>, cnt: Seq<u8>, i: int) -> int {
    if present[i] {
        cnt[i] as int
    } else {
        0
    }
}

/// Sum of the neighbour counts of the cells still on the boundary, among the first `k`.
spec fn weight_upto(present: Seq<bool>, cnt: Seq<u8>, k: nat) -> int
    decreases k,
{
    if k == 0 {
        0
    } else {
        weight_upto(present, cnt, (k - 1) as nat) + term(present, cnt, k - 1)
    }
}

/// Number of cells still on the boundary among the first `k`.
spec fn count_upto(present: Seq<bool>, k: nat) -> int
    decreases k,
{
    if k == 0 {
        0
    } else {
        count_upto(present, (k - 1) as nat) + (if present[k - 1] {
            1int
        } else {
            0int
        })
    }
}

proof fn lemma_weight_nonneg(present: Seq<bool>, cnt: Seq<u8>, k: nat)
    requires
        k <= present.len(),
        present.len() == cnt.len(),
    ensures
        weight_upto(present, cnt, k) >= 0,
    decreases k,
{
    if k > 0 {
        lemma_weight_nonneg(present, cnt, (k - 1) as nat);
    }
}

proof fn lemma_count_nonneg(present: Seq<bool>, k: nat)
    requires
        k <= present.len(),
    ensures
        count_upto(present, k) >= 0,
    decreases k,
{
    if k > 0 {
        lemma_count_nonneg(present, (k - 1) as nat);
    }
}

proof fn lemma_weight_update(
    p1: Seq<bool>,
    c1: Seq<u8>,
    p2: Seq<bool>,
    c2: Seq<u8>,
    j: int,
    k: nat,
)
    requires
        p1.len() == c1.len(),
        p2.len() == p1.len(),
        c2.len() == p1.len(),
        k <= p1.len(),
        0 <= j < p1.len(),
        forall|i: int| 0 <= i < p1.len() && i != j ==> p1[i] == p2[i] && c1[i] == c2[i],
    ensures
        weight_upto(p2, c2, k) == weight_upto(p1, c1, k) + (if j < k {
            term(p2, c2, j) - term(p1, c1, j)
        } else {
            0
        }),
    decreases k,
{
    if k > 0 {
        lemma_weight_update(p1, c1, p2, c2, j, (k - 1) as nat);
    }
}

proof fn lemma_count_update(p1: Seq<bool>, p2: Seq<bool>, j: int, k: nat)
    requires
        p2.len() == p1.len(),
        k <= p1.len(),
        0 <= j < p1.len(),
        forall|i: int| 0 <= i < p1.len() && i != j ==> p1[i] == p2[i],
    ensures
        count_upto(p2, k) == count_upto(p1, k) + (if j < k {
            (if p2[j] {
                1int
            } else {
                0int
            }) - (if p1[j] {
                1int
            } else {
                0int
            })
        } else {
            0
        }),
    decreases k,
{
    if k > 0 {
        lemma_count_update(p1, p2, j, (k - 1) as nat);
    }
}

/// The contents of each chain, as sequences of cells.
pub open spec fn chain_cells(chains: Seq<Vec<Cell>>) -> Seq<Seq<Cell>> {
    chains.map_values(|c: Vec<Cell>| c@)
}

/// A loop of at least two cells, each touching the next and the last touching the first.
pub open spec fn closed_walk(c: Seq<Cell>) -> bool {
    &&& c.len() >= 2
    &&& forall|k: int| 0 <= k < c.len() - 1 ==> #[trigger] adjacent(c[k], c[k + 1])
    &&& adjacent(c[c.len() - 1], c[0])
}

/// No cell appears twice, within one chain or across chains.
pub open spec fn chains_disjoint(cs: Seq<Seq<Cell>>) -> bool {
    forall|a: int, k: int, b: int, l: int|
        0 <= a < cs.len() && 0 <= k < cs[a].len() && 0 <= b < cs.len() && 0 <= l < cs[b].len()
            && #[trigger] cs[a][k] == #[trigger] cs[b][l] ==> a == b && k == l
}

/// Each chain begins at its own first cell in column-then-row order, which
/// also comes before every cell of every later chain.
pub open spec fn starts_at_minimum(cs: Seq<Seq<Cell>>) -> bool {
    forall|a: int, b: int, k: int|
        0 <= a <= b < cs.len() && 0 <= k < cs[b].len() && (a < b || k > 0) ==> cell_lt(
            #[trigger] cs[a][0],
            #[trigger] cs[b][k],
        )
}

/// The neighbour of `p` in Moore direction `dir`.
pub open spec fn moore_neighbour(p: Cell, dir: int) -> Cell {
    ((p.0 + step_of(dir).0) as i32, (p.1 + step_of(dir).1) as i32)
}

/// Turning around `p` one direction at a time, starting at direction `dir`
/// and for at most `tries` directions: the first direction whose neighbour
/// is `first` or a cell of `open`.
pub open spec fn first_hit(open: Set<Cell>, first: Cell, p: Cell, dir: int, tries: nat) -> Option<int>
    decreases tries,
{
    if tries == 0 {
        None
    } else if moore_neighbour(p, dir % 8) == first || open.contains(moore_neighbour(p, dir % 8)) {
        Some(dir % 8)
    } else {
        first_hit(open, first, p, dir + 1, (tries - 1) as nat)
    }
}

/// The cells of `cells` that are not among the first `k` cells of `c`.
pub open spec fn unvisited(cells: Set<Cell>, c: Seq<Cell>, k: int) -> Set<Cell> {
    cells.filter(|p: Cell| !c.take(k).contains(p))
}

/// The direction the search around the `k`-th cell of a trace starts at:
/// east around the first cell, and after a step in direction `d`, the
/// direction `d + 5` (modulo eight).
pub open spec fn search_start(dirs: Seq<int>, k: int) -> int {
    if k == 0 {
        0
    } else {
        (dirs[k - 1] + 5) % 8
    }
}

/// Step `k` of the trace `c` of `cells`, taken in direction `dirs[k]`: the
/// search around `c[k]` meets, first, the next cell of the trace, or the
/// first cell again after the last one; cells met already are skipped.
pub open spec fn moore_step(cells: Set<Cell>, c: Seq<Cell>, dirs: Seq<int>, k: int) -> bool {
    &&& first_hit(unvisited(cells, c, k + 1), c[0], c[k], search_start(dirs, k), 8) == Some(dirs[k])
    &&& moore_neighbour(c[k], dirs[k]) == if k + 1 < c.len() {
        c[k + 1]
    } else {
        c[0]
    }
}

/// `c` is the Moore-neighbourhood trace of the boundary cells `cells` from
/// the cell `c[0]`, which closes on `c[0]`, with `dirs` the direction of
/// each step.
pub open spec fn moore_trace(cells: Set<Cell>, c: Seq<Cell>, dirs: Seq<int>) -> bool {
    &&& c.len() >= 1
    &&& dirs.len() == c.len()
    &&& cells.contains(c[0])
    &&& forall|k: int| 0 <= k < c.len() ==> #[trigger] moore_step(cells, c, dirs, k)
}

/// Chain `a` is the trace of the boundary cells `rs[a]` that were left when
/// it was started, from the first of them in column-then-row order; what is
/// left for a later chain was left for every earlier one and is not on it.
pub open spec fn follows_moore(points: Seq<Cell>, cs: Seq<Seq<Cell>>, rs: Seq<Set<Cell>>, ds: Seq<Seq<int>>) -> bool {
    &&& rs.len() == cs.len()
    &&& ds.len() == cs.len()
    &&& forall|a: int| 0 <= a < cs.len() ==> #[trigger] moore_trace(rs[a], cs[a], ds[a])
    &&& forall|a: int, p: Cell|
        0 <= a < cs.len() && #[trigger] rs[a].contains(p) ==> points.contains(p) && (p == cs[a][0]
            || cell_lt(cs[a][0], p))
    &&& forall|a: int, b: int, p: Cell|
        #![trigger rs[b].contains(p), rs[a]]
        0 <= a < b < cs.len() && rs[b].contains(p) ==> rs[a].contains(p) && !cs[a].contains(p)
}

/// Closed walks over cells of `points`, none met twice, each started before
/// every later cell.
pub open spec fn chains_well_placed(points: Seq<Cell>, cs: Seq<Seq<Cell>>) -> bool {
    &&& forall|a: int| 0 <= a < cs.len() ==> closed_walk(#[trigger] cs[a])
    &&& forall|a: int, k: int|
        0 <= a < cs.len() && 0 <= k < cs[a].len() ==> points.contains(#[trigger] cs[a][k])
    &&& chains_disjoint(cs)
    &&& starts_at_minimum(cs)
}

/// Shape properties of chains traced from a boundary made of `points`:
/// closed walks over its cells, none met twice, each started at its
/// minimum, each the Moore trace of the cells left when it was started.
/// They say nothing of which chains there are; `fill_chains` does.
pub open spec fn chain_shape(points: Seq<Cell>, cs: Seq<Seq<Cell>>) -> bool {
    &&& chains_well_placed(points, cs)
    &&& exists|rs: Seq<Set<Cell>>, ds: Seq<Seq<int>>| follows_moore(points, cs, rs, ds)
}

spec fn absent(pts: Seq<Cell>, present: Seq<bool>, q: Cell) -> bool {
    forall|j: int| 0 <= j < pts.len() && #[trigger] pts[j] == q ==> !present[j]
}

/// `index` maps the key of each of the first `n` cells to its position.
spec fn index_of_cells(index: Map<u64, usize>, pts: Seq<Cell>, n: int) -> bool {
    &&& forall|k: int|
        0 <= k < n ==> #[trigger] index.contains_key(cell_key(pts[k])) && index[cell_key(pts[k])] == k
    &&& forall|key: u64|
        #[trigger] index.contains_key(key) ==> index[key] < n && cell_key(pts[index[key] as int]) == key
}

/// The position of `p` among the boundary cells `pts` that are still on
/// the boundary (`present`), if it is one of them.
pub open spec fn lookup(pts: Seq<Cell>, present: Seq<bool>, p: Cell) -> Option<int> {
    match pts.index_of_first(p) {
        Some(j) => if present[j] {
            Some(j)
        } else {
            None
        },
        None => None,
    }
}

/// How many of the eight neighbours of `p`, from direction `d` on, are
/// still on the boundary.
pub open spec fn neighbour_count(pts: Seq<Cell>, present: Seq<bool>, p: Cell, d: int) -> int
    decreases 8 - d,
{
    if d >= 8 {
        0
    } else {
        (if lookup(pts, present, moore_neighbour(p, d)) is Some {
            1int
        } else {
            0int
        }) + neighbour_count(pts, present, p, d + 1)
    }
}

/// The neighbour counts at the start: for each cell, how many of its eight
/// neighbours are boundary cells.
pub open spec fn initial_counts(pts: Seq<Cell>) -> Seq<u8> {
    Seq::new(
        pts.len(),
        |i: int| neighbour_count(pts, Seq::new(pts.len(), |j: int| true), pts[i], 0) as u8,
    )
}

/// The positions, among the first `n`, whose count is one: the tail ends,
/// in order.
pub open spec fn count_ones(cnt: Seq<u8>, n: int) -> Seq<usize>
    decreases n,
{
    if n <= 0 {
        Seq::empty()
    } else if cnt[n - 1] == 1 {
        count_ones(cnt, n - 1).push((n - 1) as usize)
    } else {
        count_ones(cnt, n - 1)
    }
}

/// The positions, among the first `n`, of the cells still on the boundary.
pub open spec fn present_indices(present: Seq<bool>, n: int) -> Seq<usize>
    decreases n,
{
    if n <= 0 {
        Seq::empty()
    } else if present[n - 1] {
        present_indices(present, n - 1).push((n - 1) as usize)
    } else {
        present_indices(present, n - 1)
    }
}

/// Some cell is still on the boundary.
pub open spec fn has_present(present: Seq<bool>) -> bool {
    exists|i: int| 0 <= i < present.len() && present[i]
}

/// `i` is the position of the cell still on the boundary that comes first
/// by column, then by row.
pub open spec fn is_leftmost(pts: Seq<Cell>, present: Seq<bool>, i: int) -> bool {
    &&& 0 <= i < pts.len()
    &&& present[i]
    &&& forall|j: int| 0 <= j < pts.len() && present[j] && j != i ==> cell_lt(pts[i], #[trigger] pts[j])
}

/// The position of the leftmost-lowest cell still on the boundary.
pub open spec fn leftmost_index(pts: Seq<Cell>, present: Seq<bool>) -> int {
    choose|i: int| is_leftmost(pts, present, i)
}

/// Lowering the counts of the neighbours of `p`, from direction `d` on: a
/// neighbour still on the boundary with a count above zero loses one, and
/// is queued when its count drops to one.
pub open spec fn lower_counts(
    pts: Seq<Cell>,
    present: Seq<bool>,
    cnt: Seq<u8>,
    queue: Seq<usize>,
    p: Cell,
    d: int,
) -> (Seq<u8>, Seq<usize>)
    decreases 8 - d,
{
    if d >= 8 {
        (cnt, queue)
    } else {
        let next = match lookup(pts, present, moore_neighbour(p, d)) {
            Some(j) => if cnt[j] > 0 {
                (
                    cnt.update(j, (cnt[j] - 1) as u8),
                    if cnt[j] - 1 == 1 {
                        queue.push(j as usize)
                    } else {
                        queue
                    },
                )
            } else {
                (cnt, queue)
            },
            None => (cnt, queue),
        };
        lower_counts(pts, present, next.0, next.1, p, d + 1)
    }
}

/// Taking `p` off the boundary: it is no longer present if it was, and the
/// counts of its neighbours are lowered either way.
pub open spec fn removal(pts: Seq<Cell>, present: Seq<bool>, cnt: Seq<u8>, queue: Seq<usize>, p: Cell) -> (
    Seq<bool>,
    Seq<u8>,
    Seq<usize>,
) {
    let pr = match lookup(pts, present, p) {
        Some(i) => present.update(i, false),
        None => present,
    };
    let lowered = lower_counts(pts, pr, cnt, queue, p, 0);
    (pr, lowered.0, lowered.1)
}

/// Where steps 2 and 3 stand: about to start a round, taking away tails,
/// taking away inner corners (the positions to look at, and how many were
/// looked at), tracing a chain (the cells so far, the current cell, the
/// direction to try and the failed tries), or finished.
pub enum FillPhase {
    Round,
    Tails,
    Corners(Seq<usize>, int),
    Trace(Seq<Cell>, Cell, int, int),
    Done,
}

/// The state of steps 2 and 3: which cells are on the boundary, their
/// neighbour counts, the queue of possible tail ends and how much of it was
/// taken, the chains traced so far, and the phase.
pub struct FillState {
    pub present: Seq<bool>,
    pub cnt: Seq<u8>,
    pub queue: Seq<usize>,
    pub head: int,
    pub chains: Seq<Seq<Cell>>,
    pub phase: FillPhase,
}

/// `s` with `p` taken off the boundary.
pub open spec fn take_off(pts: Seq<Cell>, s: FillState, p: Cell) -> FillState {
    let r = removal(pts, s.present, s.cnt, s.queue, p);
    FillState { present: r.0, cnt: r.1, queue: r.2, ..s }
}

/// The state before steps 2 and 3 on the boundary cells `pts`.
pub open spec fn fill_start(pts: Seq<Cell>) -> FillState {
    let cnt = initial_counts(pts);
    FillState {
        present: Seq::new(pts.len(), |j: int| true),
        cnt,
        queue: count_ones(cnt, pts.len() as int),
        head: 0,
        chains: Seq::empty(),
        phase: FillPhase::Round,
    }
}

/// One step of steps 2 and 3. A round ends when no cell is left; else it
/// takes away the queued tail ends one by one, then looks at each cell left
/// (in the given order) and takes it away when it is an inner corner (a
/// neighbour above or below, one to the left or right, and a count of two),
/// then traces from the leftmost-lowest cell: around the current cell from
/// the direction to try, the first cell closes the chain, a cell still on
/// the boundary is taken and the search turns to the direction after the
/// step plus five, anything else is a failed try (and taken away all the
/// same); after nine failed tries in a row the trace is dropped.
#[verifier::opaque]
pub open spec fn fill_step(pts: Seq<Cell>, s: FillState) -> FillState {
    match s.phase {
        FillPhase::Round => if has_present(s.present) {
            FillState { phase: FillPhase::Tails, ..s }
        } else {
            FillState { phase: FillPhase::Done, ..s }
        },
        FillPhase::Tails => if s.head < s.queue.len() {
            take_off(pts, FillState { head: s.head + 1, ..s }, pts[s.queue[s.head] as int])
        } else {
            FillState {
                phase: FillPhase::Corners(present_indices(s.present, s.present.len() as int), 0),
                ..s
            }
        },
        FillPhase::Corners(snap, si) => if 0 <= si < snap.len() {
            let k = snap[si] as int;
            let p = pts[k];
            let up = lookup(pts, s.present, (p.0, (p.1 + 1) as i32)) is Some;
            let down = lookup(pts, s.present, (p.0, (p.1 - 1) as i32)) is Some;
            let right = lookup(pts, s.present, ((p.0 + 1) as i32, p.1)) is Some;
            let left = lookup(pts, s.present, ((p.0 - 1) as i32, p.1)) is Some;
            let next = FillState { phase: FillPhase::Corners(snap, si + 1), ..s };
            if (up || down) && (left || right) && s.cnt[k] == 2 {
                take_off(pts, next, p)
            } else {
                next
            }
        } else if !has_present(s.present) {
            FillState { phase: FillPhase::Done, ..s }
        } else {
            let first = pts[leftmost_index(pts, s.present)];
            FillState { phase: FillPhase::Trace(seq![first], first, 0, 0), ..take_off(pts, s, first) }
        },
        FillPhase::Trace(chain, curr, dir, tries) => {
            let next = moore_neighbour(curr, dir);
            if next == chain[0] {
                FillState { chains: s.chains.push(chain), phase: FillPhase::Round, ..s }
            } else if lookup(pts, s.present, next) is Some {
                FillState {
                    phase: FillPhase::Trace(chain.push(next), next, (dir + 5) % 8, 0),
                    ..take_off(pts, s, next)
                }
            } else if tries + 1 > 8 {
                FillState { phase: FillPhase::Round, ..take_off(pts, s, next) }
            } else {
                FillState {
                    phase: FillPhase::Trace(chain, curr, (dir + 1) % 8, tries + 1),
                    ..take_off(pts, s, next)
                }
            }
        },
        FillPhase::Done => s,
    }
}

/// The state after `k` steps.
pub open spec fn fill_run(pts: Seq<Cell>, k: nat) -> FillState
    decreases k,
{
    if k == 0 {
        fill_start(pts)
    } else {
        fill_step(pts, fill_run(pts, (k - 1) as nat))
    }
}

/// The chains that steps 2 and 3 give for the boundary cells `pts`: those of
/// the finished state.
pub open spec fn fill_chains(pts: Seq<Cell>) -> Seq<Seq<Cell>> {
    fill_run(pts, choose|k: nat| fill_run(pts, k).phase is Done).chains
}

/// The leftmost-lowest cell still on the boundary is the only one.
proof fn lemma_leftmost_unique(pts: Seq<Cell>, present: Seq<bool>, i: int)
    requires
        is_leftmost(pts, present, i),
    ensures
        leftmost_index(pts, present) == i,
{
    let c = leftmost_index(pts, present);
    assert(is_leftmost(pts, present, c));
    if c != i {
        assert(cell_lt(pts[i], pts[c]));
        assert(cell_lt(pts[c], pts[i]));
    }
}

/// `count_ones` looks only at the first `n` counts.
proof fn lemma_count_ones_prefix(c1: Seq<u8>, c2: Seq<u8>, n: int)
    requires
        0 <= n <= c1.len(),
        n <= c2.len(),
        forall|k: int| 0 <= k < n ==> c1[k] == c2[k],
    ensures
        count_ones(c1, n) == count_ones(c2, n),
    decreases n,
{
    if n > 0 {
        lemma_count_ones_prefix(c1, c2, n - 1);
    }
}

/// A step from the start of a round.
proof fn lemma_step_round(pts: Seq<Cell>, s: FillState)
    requires
        s.phase is Round,
    ensures
        fill_step(pts, s) == (if has_present(s.present) {
            FillState { phase: FillPhase::Tails, ..s }
        } else {
            FillState { phase: FillPhase::Done, ..s }
        }),
{
    reveal(fill_step);
}

/// A step while taking away tails.
proof fn lemma_step_tails(pts: Seq<Cell>, s: FillState)
    requires
        s.phase is Tails,
    ensures
        s.head < s.queue.len() ==> fill_step(pts, s) == take_off(
            pts,
            FillState { head: s.head + 1, ..s },
            pts[s.queue[s.head] as int],
        ),
        !(s.head < s.queue.len()) ==> fill_step(pts, s) == (FillState {
            phase: FillPhase::Corners(present_indices(s.present, s.present.len() as int), 0),
            ..s
        }),
{
    reveal(fill_step);
}

/// A step that looks at a possible inner corner.
proof fn lemma_step_corner(pts: Seq<Cell>, s: FillState, snap: Seq<usize>, si: int)
    requires
        s.phase == FillPhase::Corners(snap, si),
        0 <= si < snap.len(),
    ensures
        ({
            let k = snap[si] as int;
            let p = pts[k];
            let up = lookup(pts, s.present, (p.0, (p.1 + 1) as i32)) is Some;
            let down = lookup(pts, s.present, (p.0, (p.1 - 1) as i32)) is Some;
            let right = lookup(pts, s.present, ((p.0 + 1) as i32, p.1)) is Some;
            let left = lookup(pts, s.present, ((p.0 - 1) as i32, p.1)) is Some;
            let next = FillState { phase: FillPhase::Corners(snap, si + 1), ..s };
            fill_step(pts, s) == if (up || down) && (left || right) && s.cnt[k] == 2 {
                take_off(pts, next, p)
            } else {
                next
            }
        }),
{
    reveal(fill_step);
}

/// The step after the last possible inner corner.
proof fn lemma_step_corners_end(pts: Seq<Cell>, s: FillState, snap: Seq<usize>)
    requires
        s.phase == FillPhase::Corners(snap, snap.len() as int),
    ensures
        !has_present(s.present) ==> fill_step(pts, s) == (FillState { phase: FillPhase::Done, ..s }),
        has_present(s.present) ==> fill_step(pts, s) == ({
            let first = pts[leftmost_index(pts, s.present)];
            FillState { phase: FillPhase::Trace(seq![first], first, 0, 0), ..take_off(pts, s, first) }
        }),
{
    reveal(fill_step);
}

/// A step of a trace.
proof fn lemma_step_trace(pts: Seq<Cell>, s: FillState, chain: Seq<Cell>, curr: Cell, dir: int, tries: int)
    requires
        s.phase == FillPhase::Trace(chain, curr, dir, tries),
    ensures
        ({
            let next = moore_neighbour(curr, dir);
            fill_step(pts, s) == if next == chain[0] {
                FillState { chains: s.chains.push(chain), phase: FillPhase::Round, ..s }
            } else if lookup(pts, s.present, next) is Some {
                FillState {
                    phase: FillPhase::Trace(chain.push(next), next, (dir + 5) % 8, 0),
                    ..take_off(pts, s, next)
                }
            } else if tries + 1 > 8 {
                FillState { phase: FillPhase::Round, ..take_off(pts, s, next) }
            } else {
                FillState {
                    phase: FillPhase::Trace(chain, curr, (dir + 1) % 8, tries + 1),
                    ..take_off(pts, s, next)
                }
            }
        }),
{
    reveal(fill_step);
}

/// Once finished, steps 2 and 3 stay finished.
proof fn lemma_done_stays(pts: Seq<Cell>, k: nat, m: nat)
    requires
        fill_run(pts, k).phase is Done,
        k <= m,
    ensures
        fill_run(pts, m) == fill_run(pts, k),
    decreases m - k,
{
    if m > k {
        lemma_done_stays(pts, k, (m - 1) as nat);
        reveal(fill_step);
    }
}

/// The finished state reached after `k` steps gives `fill_chains`.
proof fn lemma_fill_chains(pts: Seq<Cell>, k: nat)
    requires
        fill_run(pts, k).phase is Done,
    ensures
        fill_chains(pts) == fill_run(pts, k).chains,
{
    let c = choose|c: nat| fill_run(pts, c).phase is Done;
    assert(fill_run(pts, c).phase is Done);
    if c <= k {
        lemma_done_stays(pts, c, k);
    } else {
        lemma_done_stays(pts, k, c);
    }
}

/// The chains depend on the boundary cells alone: tracing the same cells
/// twice gives the same chains.
pub proof fn law_fill_is_repeatable(points: Seq<Cell>, first: Seq<Seq<Cell>>, second: Seq<Seq<Cell>>)
    requires
        first == fill_chains(points),
        second == fill_chains(points),
    ensures
        first == second,
{
}

/// `lookup` finds the one present position of a cell, when there is one.
proof fn lemma_lookup(pts: Seq<Cell>, present: Seq<bool>, p: Cell)
    requires
        pts.no_duplicates(),
        present.len() == pts.len(),
    ensures
        forall|i: int| 0 <= i < pts.len() && present[i] && pts[i] == p ==> lookup(pts, present, p) == Some(i),
        (forall|i: int| 0 <= i < pts.len() && present[i] ==> pts[i] != p) ==> lookup(pts, present, p) is None,
{
    pts.index_of_first_ensures(p);
    match pts.index_of_first(p) {
        Some(j) => {
            assert forall|i: int| 0 <= i < pts.len() && present[i] && pts[i] == p implies lookup(pts, present, p)
                == Some(i) by {
                if i != j {
                    assert(pts[i] == pts[j]);
                }
            }
        },
        None => {
            assert forall|i: int| 0 <= i < pts.len() && present[i] && pts[i] == p implies false by {
                assert(pts.contains(p));
            }
        },
    }
}

/// Working state of the boundary: the cells, which are still on it, how many
/// boundary neighbours each had (never counted below zero), the queue of
/// cells to examine as possible tail ends, and where each cell is found by
/// its key.
struct Boundary {
    pts: Vec<Cell>,
    present: Vec<bool>,
    cnt: Vec<u8>,
    queue: Vec<usize>,
    index: HashMap<u64, usize>,
}

impl Boundary {
    spec fn inv(&self) -> bool {
        &&& self.present@.len() == self.pts@.len()
        &&& self.cnt@.len() == self.pts@.len()
        &&& self.pts@.no_duplicates()
        &&& forall|i: int| 0 <= i < self.pts@.len() ==> cell_in_range(#[trigger] self.pts@[i])
        &&& forall|k: int| 0 <= k < self.queue@.len() ==> #[trigger] self.queue@[k] < self.pts@.len()
        &&& index_of_cells(self.index@, self.pts@, self.pts@.len() as int)
    }

    spec fn weight(&self) -> int {
        weight_upto(self.present@, self.cnt@, self.pts@.len())
    }

    spec fn count(&self) -> int {
        count_upto(self.present@, self.pts@.len())
    }

    /// The cell `p` is in the input and no longer on the boundary.
    spec fn taken(&self, p: Cell) -> bool {
        exists|i: int| 0 <= i < self.pts@.len() && self.pts@[i] == p && !self.present@[i]
    }

    fn find(&self, p: Cell) -> (res: Option<usize>)
        requires
            self.inv(),
        ensures
            match res {
                Some(i) => i < self.pts@.len() && self.present@[i as int] && self.pts@[i as int]
                    == p,
                None => forall|i: int|
                    0 <= i < self.pts@.len() && self.present@[i] ==> self.pts@[i] != p,
            },
            lookup(self.pts@, self.present@, p) == match res {
                Some(i) => Some(i as int),
                None => None::<int>,
            },
    {
        proof {
            lemma_lookup(self.pts@, self.present@, p);
        }
        let key = key_of(p);
        match self.index.get(&key) {
            Some(ip) => {
                let i = *ip;
                proof {
                    lemma_cell_key_injective(self.pts@[i as int], p);
                }
                if self.present[i] {
                    Some(i)
                } else {
                    proof {
                        assert forall|j: int| 0 <= j < self.pts@.len() && self.present@[j] implies self.pts@[j]
                            != p by {
                            if self.pts@[j] == p {
                                assert(self.index@[cell_key(self.pts@[j])] == j);
                            }
                        }
                    }
                    None
                }
            },
            None => {
                proof {
                    assert forall|j: int| 0 <= j < self.pts@.len() && self.present@[j] implies self.pts@[j]
                        != p by {
                        if self.pts@[j] == p {
                            assert(self.index@.contains_key(cell_key(self.pts@[j])));
                        }
                    }
                }
                None
            },
        }
    }

    fn occupied(&self, p: Cell) -> (res: bool)
        requires
            self.inv(),
        ensures
            res == exists|i: int|
                0 <= i < self.pts@.len() && self.present@[i] && self.pts@[i] == p,
            res == lookup(self.pts@, self.present@, p) is Some,
    {
        match self.find(p) {
            Some(i) => {
                assert(self.present@[i as int] && self.pts@[i as int] == p);
                true
            },
            None => false,
        }
    }

    fn any_present(&self) -> (res: bool)
        requires
            self.inv(),
        ensures
            res == exists|i: int| 0 <= i < self.pts@.len() && self.present@[i],
    {
        let mut i: usize = 0;
        while i < self.present.len()
            invariant
                self.inv(),
                i <= self.pts@.len(),
                forall|k: int| 0 <= k < i ==> !self.present@[k],
            decreases self.pts@.len() - i,
        {
            if self.present[i] {
                return true;
            }
            i += 1;
        }
        false
    }

    /// The boundary cell that comes first by column, then by row.
    fn leftmost(&self) -> (best: usize)
        requires
            self.inv(),
            exists|i: int| 0 <= i < self.pts@.len() && self.present@[i],
        ensures
            best < self.pts@.len(),
            self.present@[best as int],
            forall|j: int|
                0 <= j < self.pts@.len() && self.present@[j] && j != best ==> cell_lt(
                    self.pts@[best as int],
                    self.pts@[j],
                ),
            best as int == leftmost_index(self.pts@, self.present@),
    {
        let mut best: Option<usize> = None;
        let mut i: usize = 0;
        while i < self.present.len()
            invariant
                self.inv(),
                i <= self.pts@.len(),
                match best {
                    Some(b) => {
                        &&& b < i
                        &&& self.present@[b as int]
                        &&& forall|j: int|
                            0 <= j < i && self.present@[j] && j != b ==> cell_lt(
                                self.pts@[b as int],
                                self.pts@[j],
                            )
                    },
                    None => forall|j: int| 0 <= j < i ==> !self.present@[j],
                },
            decreases self.pts@.len() - i,
        {
            if self.present[i] {
                match best {
                    None => {
                        best = Some(i);
                    },
                    Some(b) => {
                        let pb = self.pts[b];
                        let pi = self.pts[i];
                        if pi.0 < pb.0 || (pi.0 == pb.0 && pi.1 < pb.1) {
                            proof {
                                assert forall|j: int|
                                    0 <= j < i + 1 && self.present@[j] && j != i implies cell_lt(
                                    self.pts@[i as int],
                                    self.pts@[j],
                                ) by {
                                    if j != b {
                                        assert(cell_lt(self.pts@[b as int], self.pts@[j]));
                                    }
                                }
                            }
                            best = Some(i);
                        } else {
                            proof {
                                assert(self.pts@[b as int] != self.pts@[i as int]);
                            }
                        }
                    },
                }
            }
            i += 1;
        }
        match best {
            Some(b) => {
                proof {
                    assert(is_leftmost(self.pts@, self.present@, b as int));
                    lemma_leftmost_unique(self.pts@, self.present@, b as int);
                }
                b
            },
            None => {
                proof {
                    let k = choose|k: int| 0 <= k < self.pts@.len() && self.present@[k];
                    assert(!self.present@[k]);
                }
                0
            },
        }
    }

    fn new(points: &Vec<Cell>) -> (b: Boundary)
        requires
            points@.no_duplicates(),
            forall|i: int| 0 <= i < points@.len() ==> cell_in_range(#[trigger] points@[i]),
        ensures
            b.inv(),
            b.pts@ == points@,
            forall|i: int| 0 <= i < b.pts@.len() ==> #[trigger] b.present@[i],
            b.present@ == Seq::new(points@.len(), |j: int| true),
            b.cnt@ == initial_counts(points@),
            b.queue@ == count_ones(b.cnt@, points@.len() as int),
    {
        let mut pts: Vec<Cell> = Vec::new();
        let mut present: Vec<bool> = Vec::new();
        let mut cnt: Vec<u8> = Vec::new();
        let mut index: HashMap<u64, usize> = HashMap::new();
        let mut i: usize = 0;
        while i < points.len()
            invariant
                i <= points@.len(),
                points@.no_duplicates(),
                pts@ == points@.subrange(0, i as int),
                present@.len() == i,
                cnt@.len() == i,
                forall|k: int| 0 <= k < i ==> #[trigger] present@[k],
                index_of_cells(index@, pts@, i as int),
            decreases points@.len() - i,
        {
            let p = points[i];
            proof {
                assert forall|k: int| 0 <= k < i implies cell_key(#[trigger] pts@[k]) != cell_key(p) by {
                    lemma_cell_key_injective(pts@[k], p);
                    assert(points@[k] == pts@[k]);
                }
            }
            let ghost old_pts = pts@;
            pts.push(p);
            present.push(true);
            cnt.push(0);
            index.insert(key_of(p), i);
            proof {
                assert forall|k: int| 0 <= k < i + 1 implies #[trigger] index@.contains_key(cell_key(pts@[k]))
                    && index@[cell_key(pts@[k])] == k by {
                    if k < i {
                        assert(pts@[k] == old_pts[k]);
                    }
                }
                assert forall|key: u64| #[trigger] index@.contains_key(key) implies index@[key] < i + 1
                    && cell_key(pts@[index@[key] as int]) == key by {
                    if key != cell_key(p) {
                        assert(pts@[index@[key] as int] == old_pts[index@[key] as int]);
                    }
                }
            }
            i += 1;
        }
        assert(pts@ == points@);
        let ghost all = Seq::new(points@.len(), |j: int| true);
        assert(present@ =~= all);
        let mut b = Boundary { pts, present, cnt, queue: Vec::new(), index };
        let mut i: usize = 0;
        proof {
            assert(b.queue@ =~= count_ones(b.cnt@, 0));
        }
        while i < b.pts.len()
            invariant
                b.inv(),
                b.pts@ == points@,
                i <= b.pts@.len(),
                forall|k: int| 0 <= k < b.pts@.len() ==> #[trigger] b.present@[k],
                b.present@ == all,
                all == Seq::new(points@.len(), |j: int| true),
                forall|k: int| 0 <= k < i ==> #[trigger] b.cnt@[k] == initial_counts(points@)[k],
                b.queue@ == count_ones(b.cnt@, i as int),
            decreases b.pts@.len() - i,
        {
            let p = b.pts[i];
            let mut c: u8 = 0;
            let mut d: usize = 0;
            while d < 8
                invariant
                    b.inv(),
                    b.pts@ == points@,
                    b.present@ == all,
                    i < b.pts@.len(),
                    p == b.pts@[i as int],
                    cell_in_range(p),
                    d <= 8,
                    c <= d,
                    c + neighbour_count(points@, all, p, d as int) == neighbour_count(points@, all, p, 0),
                decreases 8 - d,
            {
                let s = step(d);
                let q = (p.0 + s.0, p.1 + s.1);
                proof {
                    assert(q == moore_neighbour(p, d as int));
                }
                if b.occupied(q) {
                    c = c + 1;
                }
                d += 1;
            }
            let ghost before = b.cnt@;
            b.cnt.set(i, c);
            proof {
                lemma_count_ones_prefix(before, b.cnt@, i as int);
                assert(b.cnt@[i as int] == initial_counts(points@)[i as int]);
            }
            if c == 1 {
                b.queue.push(i);
            }
            i += 1;
        }
        proof {
            assert(b.cnt@ =~= initial_counts(points@));
        }
        b
    }

    /// Takes `p` off the boundary if it is there, and lowers the counts of
    /// its eight neighbours still on the boundary whether or not `p` was
    /// there; a neighbour whose count drops to one is queued. A count stops
    /// at zero: below one it can never come back to one or two, so the tests
    /// on it come out the same.
    fn remove_pt(&mut self, p: Cell) -> (res: Option<usize>)
        requires
            old(self).inv(),
            cell_near_range(p),
        ensures
            final(self).inv(),
            final(self).pts@ == old(self).pts@,
            match res {
                Some(i) => {
                    &&& i < old(self).pts@.len()
                    &&& old(self).present@[i as int]
                    &&& old(self).pts@[i as int] == p
                    &&& final(self).present@ == old(self).present@.update(i as int, false)
                },
                None => {
                    &&& final(self).present@ == old(self).present@
                    &&& forall|i: int|
                        0 <= i < old(self).pts@.len() && old(self).present@[i] ==> old(
                            self,
                        ).pts@[i] != p
                },
            },
            final(self).count() == old(self).count() - (if res is Some {
                1int
            } else {
                0int
            }),
            forall|j: int|
                0 <= j < old(self).pts@.len() && #[trigger] final(self).present@[j] ==> old(
                    self,
                ).present@[j],
            final(self).queue@.len() >= old(self).queue@.len(),
            removal(old(self).pts@, old(self).present@, old(self).cnt@, old(self).queue@, p) == (
                final(self).present@,
                final(self).cnt@,
                final(self).queue@,
            ),
            lookup(old(self).pts@, old(self).present@, p) == match res {
                Some(i) => Some(i as int),
                None => None::<int>,
            },
            (final(self).queue@.len() - old(self).queue@.len()) + final(self).weight() <= old(
                self,
            ).weight(),
    {
        let found = self.find(p);
        if let Some(i) = found {
            proof {
                lemma_weight_update(
                    self.present@,
                    self.cnt@,
                    self.present@.update(i as int, false),
                    self.cnt@,
                    i as int,
                    self.pts@.len(),
                );
                lemma_count_update(
                    self.present@,
                    self.present@.update(i as int, false),
                    i as int,
                    self.pts@.len(),
                );
            }
            self.present.set(i, false);
        }
        let ghost w0 = old(self).weight();
        let ghost q0 = old(self).queue@.len();
        let ghost pres = self.present@;
        let ghost c0 = self.count();
        let ghost lowered = lower_counts(self.pts@, pres, self.cnt@, self.queue@, p, 0);
        let mut d: usize = 0;
        while d < 8
            invariant
                self.inv(),
                self.pts@ == old(self).pts@,
                self.present@ == pres,
                self.count() == c0,
                d <= 8,
                cell_near_range(p),
                self.queue@.len() >= q0,
                (self.queue@.len() - q0) + self.weight() <= w0,
                lower_counts(self.pts@, pres, self.cnt@, self.queue@, p, d as int) == lowered,
            decreases 8 - d,
        {
            let s = step(d);
            let q = (p.0 + s.0, p.1 + s.1);
            proof {
                assert(q == moore_neighbour(p, d as int));
            }
            if let Some(j) = self.find(q) {
                let c = self.cnt[j];
                if c > 0 {
                    proof {
                        lemma_weight_update(
                            self.present@,
                            self.cnt@,
                            self.present@,
                            self.cnt@.update(j as int, (c - 1) as u8),
                            j as int,
                            self.pts@.len(),
                        );
                    }
                    self.cnt.set(j, c - 1);
                    if c - 1 == 1 {
                        self.queue.push(j);
                    }
                }
            }
            d += 1;
        }
        proof {
            assert(removal(old(self).pts@, old(self).present@, old(self).cnt@, old(self).queue@, p) == (
                self.present@,
                self.cnt@,
                self.queue@,
            ));
        }
        found
    }
}

impl Boundary {
    /// The state of steps 2 and 3 with this boundary.
    spec fn state_of(&self, head: int, chains: Seq<Seq<Cell>>, phase: FillPhase) -> FillState {
        FillState { present: self.present@, cnt: self.cnt@, queue: self.queue@, head, chains, phase }
    }

    /// The cells still on the boundary.
    spec fn present_set(&self) -> Set<Cell> {
        Set::new(|p: Cell| exists|j: int| 0 <= j < self.pts@.len() && self.present@[j] && self.pts@[j] == p)
    }
}

/// When the cells still on the boundary are those of `b0` not met by the
/// trace `chain`, they are the cells of `r` (those of `b0`) the trace has
/// not met.
proof fn lemma_present_after_trace(b0: Boundary, b: Boundary, r: Set<Cell>, chain: Seq<Cell>)
    requires
        b0.inv(),
        b.inv(),
        b.pts@ == b0.pts@,
        r == b0.present_set(),
        forall|j: int|
            0 <= j < b0.pts@.len() ==> (#[trigger] b.present@[j] <==> (b0.present@[j]
                && !chain.contains(b0.pts@[j]))),
    ensures
        b.present_set() == unvisited(r, chain, chain.len() as int),
{
    assert(chain.take(chain.len() as int) =~= chain);
    assert forall|p: Cell| #[trigger] b.present_set().contains(p) <==> unvisited(r, chain, chain.len() as int).contains(p) by {
        if b.present_set().contains(p) {
            let j = choose|j: int| 0 <= j < b.pts@.len() && b.present@[j] && b.pts@[j] == p;
            assert(b0.present@[j]);
            assert(r.contains(p));
        }
        if unvisited(r, chain, chain.len() as int).contains(p) {
            assert(r.contains(p));
            let j = choose|j: int| 0 <= j < b0.pts@.len() && b0.present@[j] && b0.pts@[j] == p;
            assert(b.present@[j]);
        }
    }
    assert(b.present_set() =~= unvisited(r, chain, chain.len() as int));
}

/// A step of a trace to a cell not met yet keeps every earlier step a
/// step of the longer trace.
proof fn lemma_trace_moves(r: Set<Cell>, chain: Seq<Cell>, dirs: Seq<int>, next: Cell, dir: int)
    requires
        chain.len() >= 1,
        dirs.len() == chain.len() - 1,
        forall|k: int| 0 <= k < dirs.len() ==> #[trigger] moore_step(r, chain, dirs, k),
        first_hit(
            unvisited(r, chain, chain.len() as int),
            chain[0],
            chain[chain.len() - 1],
            search_start(dirs, chain.len() - 1),
            8,
        ) == Some(dir),
        moore_neighbour(chain[chain.len() - 1], dir) == next,
    ensures
        forall|k: int|
            0 <= k < dirs.len() + 1 ==> #[trigger] moore_step(r, chain.push(next), dirs.push(dir), k),
{
    let nc = chain.push(next);
    let nd = dirs.push(dir);
    assert forall|k: int| 0 <= k < nd.len() implies #[trigger] moore_step(r, nc, nd, k) by {
        assert(nc.take(k + 1) =~= chain.take(k + 1));
        if k < dirs.len() {
            assert(moore_step(r, chain, dirs, k));
            assert(search_start(nd, k) == search_start(dirs, k));
        } else {
            assert(search_start(nd, k) == search_start(dirs, k));
        }
    }
}

/// The step back to the first cell closes the trace.
proof fn lemma_trace_closes(r: Set<Cell>, chain: Seq<Cell>, dirs: Seq<int>, dir: int)
    requires
        chain.len() >= 1,
        dirs.len() == chain.len() - 1,
        forall|k: int| 0 <= k < dirs.len() ==> #[trigger] moore_step(r, chain, dirs, k),
        first_hit(
            unvisited(r, chain, chain.len() as int),
            chain[0],
            chain[chain.len() - 1],
            search_start(dirs, chain.len() - 1),
            8,
        ) == Some(dir),
        moore_neighbour(chain[chain.len() - 1], dir) == chain[0],
    ensures
        forall|k: int| 0 <= k < dirs.len() + 1 ==> #[trigger] moore_step(r, chain, dirs.push(dir), k),
{
    let nd = dirs.push(dir);
    assert forall|k: int| 0 <= k < nd.len() implies #[trigger] moore_step(r, chain, nd, k) by {
        assert(search_start(nd, k) == search_start(dirs, k));
        if k < dirs.len() {
            assert(moore_step(r, chain, dirs, k));
        }
    }
}

/// Taking the cell at `j` off the boundary when the trace moves to it.
proof fn lemma_present_after_move(b0: Boundary, bb: Boundary, b: Boundary, chain: Seq<Cell>, j: int)
    requires
        b0.inv(),
        bb.pts@ == b0.pts@,
        b.pts@ == b0.pts@,
        bb.present@.len() == b0.pts@.len(),
        0 <= j < b0.pts@.len(),
        bb.present@[j],
        b.present@ == bb.present@.update(j, false),
        forall|i: int|
            0 <= i < b0.pts@.len() ==> (#[trigger] bb.present@[i] <==> (b0.present@[i]
                && !chain.contains(b0.pts@[i]))),
    ensures
        forall|i: int|
            0 <= i < b0.pts@.len() ==> (#[trigger] b.present@[i] <==> (b0.present@[i]
                && !chain.push(b0.pts@[j]).contains(b0.pts@[i]))),
{
    let next = b0.pts@[j];
    let nc = chain.push(next);
    assert forall|i: int| 0 <= i < b0.pts@.len() implies (#[trigger] b.present@[i] <==> (
        b0.present@[i] && !nc.contains(b0.pts@[i]))) by {
        if i != j {
            assert(bb.present@[i] == b.present@[i]);
            if b0.pts@[i] == next {
                assert(b0.pts@[i] == b0.pts@[j]);
            }
            if nc.contains(b0.pts@[i]) && b0.pts@[i] != next {
                let k = choose|k: int| 0 <= k < nc.len() && nc[k] == b0.pts@[i];
                assert(chain[k] == b0.pts@[i]);
            }
            if chain.contains(b0.pts@[i]) {
                let k = choose|k: int| 0 <= k < chain.len() && chain[k] == b0.pts@[i];
                assert(nc[k] == b0.pts@[i]);
            }
        } else {
            assert(nc[chain.len() as int] == next);
        }
    }
}

/// Follows the boundary around from the cell at `start`, taking each cell
/// met off the boundary. Gives whether the trace closed on its first cell,
/// the cells met in order, and the direction of each step.
#[verifier::spinoff_prover]
fn trace_chain(
    b: &mut Boundary,
    start: usize,
    Ghost(k0): Ghost<nat>,
    Ghost(head): Ghost<int>,
    Ghost(cs): Ghost<Seq<Seq<Cell>>>,
    Ghost(snap): Ghost<Seq<usize>>,
) -> (res: (bool, Vec<Cell>, Ghost<Seq<int>>, Ghost<nat>))
    requires
        old(b).inv(),
        start < old(b).pts@.len(),
        old(b).present@[start as int],
        start as int == leftmost_index(old(b).pts@, old(b).present@),
        fill_run(old(b).pts@, k0) == old(b).state_of(
            head,
            cs,
            FillPhase::Corners(snap, snap.len() as int),
        ),
    ensures
        fill_run(old(b).pts@, res.3@) == final(b).state_of(
            head,
            if res.0 {
                cs.push(res.1@)
            } else {
                cs
            },
            FillPhase::Round,
        ),
        final(b).inv(),
        final(b).pts@ == old(b).pts@,
        final(b).queue@.len() >= old(b).queue@.len(),
        final(b).count() < old(b).count(),
        forall|j: int|
            0 <= j < old(b).pts@.len() ==> (#[trigger] final(b).present@[j] <==> (old(b).present@[j]
                && !res.1@.contains(old(b).pts@[j]))),
        res.1@.len() >= 1,
        res.1@[0] == old(b).pts@[start as int],
        res.1@.no_duplicates(),
        forall|k: int| 0 <= k < res.1@.len() ==> old(b).present_set().contains(#[trigger] res.1@[k]),
        forall|k: int| 0 <= k < res.1@.len() - 1 ==> #[trigger] adjacent(res.1@[k], res.1@[k + 1]),
        res.0 ==> res.1@.len() >= 2 && adjacent(res.1@[res.1@.len() - 1], res.1@[0]),
        res.0 ==> moore_trace(old(b).present_set(), res.1@, res.2@),
{
    let ghost r = b.present_set();
    let ghost b0 = *b;
    let ghost pts = b.pts@;
    let first = b.pts[start];
    let removed = b.remove_pt(first);
    let ghost mut k: nat = k0 + 1;
    proof {
        assert(has_present(b0.present@));
        lemma_step_corners_end(pts, fill_run(pts, k0), snap);
        assert(fill_run(pts, k) == fill_step(pts, fill_run(pts, k0)));
        assert(fill_run(pts, k) == b.state_of(head, cs, FillPhase::Trace(seq![first], first, 0, 0)));
        if removed is None {
            assert(b0.pts@[start as int] != first);
        }
        assert(removed == Some(start)) by {
            if removed != Some(start) {
                let rr = removed->0;
                assert(b0.pts@[rr as int] == b0.pts@[start as int]);
            }
        }
        lemma_count_nonneg(b.present@, b.pts@.len());
        assert(r.contains(first));
        assert forall|j: int| 0 <= j < b0.pts@.len() implies (#[trigger] b.present@[j] <==> (
            b0.present@[j] && !seq![first].contains(b0.pts@[j]))) by {
            let one = seq![first];
            assert(one[0] == first);
            if j == start {
                assert(one.contains(b0.pts@[j]));
            } else {
                assert(b0.pts@[j] != b0.pts@[start as int]);
                assert(b.present@[j] == b0.present@[j]);
                if one.contains(b0.pts@[j]) {
                    let k = choose|k: int| 0 <= k < one.len() && one[k] == b0.pts@[j];
                    assert(k == 0);
                }
            }
        }
        lemma_present_after_trace(b0, *b, r, seq![first]);
    }
    let mut chain: Vec<Cell> = Vec::new();
    chain.push(first);
    let mut curr = first;
    let mut dir: usize = 0;
    let mut attempts: usize = 0;
    let mut closed = false;
    let ghost mut dirs: Seq<int> = Seq::empty();
    let ghost mut sd: int = 0;
    proof {
        assert(chain@ =~= seq![first]);
    }
    loop
        invariant_except_break
            !closed,
            attempts <= 8,
            fill_run(pts, k) == b.state_of(head, cs, FillPhase::Trace(chain@, curr, dir as int, attempts as int)),
        invariant
            pts == b0.pts@,
            b.inv(),
            b0.inv(),
            b.pts@ == b0.pts@,
            b.queue@.len() >= b0.queue@.len(),
            b.count() < b0.count(),
            r == b0.present_set(),
            first == b0.pts@[start as int],
            dir < 8,
            0 <= sd < 8,
            dir == (sd + attempts) % 8,
            cell_in_range(curr),
            chain@.len() >= 1,
            chain@[0] == first,
            chain@[chain@.len() - 1] == curr,
            chain@.len() == 1 ==> curr == first,
            chain@.no_duplicates(),
            forall|k: int| 0 <= k < chain@.len() - 1 ==> #[trigger] adjacent(chain@[k], chain@[k + 1]),
            forall|k: int| 0 <= k < chain@.len() ==> r.contains(#[trigger] chain@[k]),
            forall|j: int|
                0 <= j < b0.pts@.len() ==> (#[trigger] b.present@[j] <==> (b0.present@[j]
                    && !chain@.contains(b0.pts@[j]))),
            b.present_set() == unvisited(r, chain@, chain@.len() as int),
            !closed ==> dirs.len() == chain@.len() - 1,
            !closed ==> sd == search_start(dirs, chain@.len() - 1),
            !closed && attempts <= 8 ==> first_hit(b.present_set(), first, curr, sd, 8)
                == first_hit(b.present_set(), first, curr, sd + attempts, (8 - attempts) as nat),
            forall|k: int| 0 <= k < dirs.len() ==> #[trigger] moore_step(r, chain@, dirs, k),
            closed ==> dirs.len() == chain@.len() && chain@.len() >= 2 && adjacent(curr, first),
        ensures
            fill_run(pts, k) == b.state_of(
                head,
                if closed {
                    cs.push(chain@)
                } else {
                    cs
                },
                FillPhase::Round,
            ),
        decreases b.count(), 8 - attempts,
    {
        let s = step(dir);
        let next = (curr.0 + s.0, curr.1 + s.1);
        proof {
            assert(next == moore_neighbour(curr, dir as int));
            assert((dir as int) % 8 == dir as int);
            let open = b.present_set();
            if attempts == 8 {
                assert(sd % 8 == dir as int);
                assert(first_hit(open, first, curr, sd + 8, 0) is None);
            }
        }
        if next.0 == first.0 && next.1 == first.1 {
            proof {
                let open = b.present_set();
                assert(first_hit(open, first, curr, sd, 8) == Some(dir as int));
                let nd = dirs.push(dir as int);
                lemma_trace_closes(r, chain@, dirs, dir as int);
                dirs = nd;
                if chain@.len() == 1 {
                    assert(next != curr);
                }
                lemma_step_trace(pts, fill_run(pts, k), chain@, curr, dir as int, attempts as int);
                assert(fill_run(pts, k + 1) == fill_step(pts, fill_run(pts, k)));
                k = k + 1;
            }
            closed = true;
            break;
        }
        let ghost bb = *b;
        let ghost k_before = k;
        let removed_next = b.remove_pt(next);
        proof {
            lemma_step_trace(pts, fill_run(pts, k), chain@, curr, dir as int, attempts as int);
            assert(fill_run(pts, k + 1) == fill_step(pts, fill_run(pts, k)));
            k = k + 1;
        }
        match removed_next {
            Some(j) => {
                let ghost old_chain = chain@;
                proof {
                    let open = bb.present_set();
                    assert(open.contains(next));
                    assert(first_hit(open, first, curr, sd, 8) == Some(dir as int));
                    lemma_count_nonneg(b.present@, b.pts@.len());
                    assert(!old_chain.contains(next)) by {
                        if old_chain.contains(next) {
                            let k = choose|k: int| 0 <= k < old_chain.len() && old_chain[k] == next;
                            assert(!bb.present@[j as int]);
                        }
                    }
                }
                chain.push(next);
                proof {
                    let nd = dirs.push(dir as int);
                    let nc = chain@;
                    assert(nc == old_chain.push(next));
                    lemma_trace_moves(r, old_chain, dirs, next, dir as int);
                    lemma_present_after_move(b0, bb, *b, old_chain, j as int);
                    lemma_present_after_trace(b0, *b, r, nc);
                    assert(r.contains(next));
                    assert forall|k: int| 0 <= k < nc.len() implies r.contains(#[trigger] nc[k]) by {
                        if k < old_chain.len() {
                            assert(nc[k] == old_chain[k]);
                        }
                    }
                    assert forall|k: int| 0 <= k < nc.len() - 1 implies #[trigger] adjacent(nc[k], nc[k + 1]) by {
                        if k < old_chain.len() - 1 {
                            assert(adjacent(old_chain[k], old_chain[k + 1]));
                        }
                    }
                    dirs = nd;
                    sd = (dir as int + 5) % 8;
                }
                dir = (dir + 5) % 8;
                curr = next;
                attempts = 0;
            },
            None => {
                proof {
                    let open = b.present_set();
                    assert(!open.contains(next));
                    if attempts < 8 {
                        assert(first_hit(open, first, curr, sd + attempts, (8 - attempts) as nat)
                            == first_hit(open, first, curr, sd + attempts + 1, (8 - attempts - 1) as nat));
                    }
                }
                dir = (dir + 1) % 8;
                attempts += 1;
                if attempts > 8 {
                    break;
                }
            },
        }
    }
    (closed, chain, Ghost(dirs), Ghost(k))
}

/// Steps 2 and 3 of the bucket fill: from the grid cells where the flood
/// fill met a stroke or the edge of the view, take away the dangling tails
/// (cells left with a single boundary neighbour) and the inner corners, then
/// trace the remaining cells into closed chains, each started at the
/// leftmost-lowest cell still on the boundary and followed around its Moore
/// neighbourhood. A trace that cannot close is dropped. The chains are
/// exactly `fill_chains` of the cells, in the order they are given.
#[verifier::spinoff_prover]
pub fn trace_fill_boundary(points: &Vec<Cell>) -> (chains: Vec<Vec<Cell>>)
    requires
        points@.no_duplicates(),
        forall|i: int| 0 <= i < points@.len() ==> cell_in_range(#[trigger] points@[i]),
    ensures
        chain_cells(chains@) == fill_chains(points@),
        chain_shape(points@, chain_cells(chains@)),
{
    let mut b = Boundary::new(points);
    let mut head: usize = 0;
    let mut chains: Vec<Vec<Cell>> = Vec::new();
    let ghost mut rs: Seq<Set<Cell>> = Seq::empty();
    let ghost mut ds: Seq<Seq<int>> = Seq::empty();
    let ghost mut steps: nat = 0;
    proof {
        lemma_count_nonneg(b.present@, b.pts@.len());
        assert(chain_cells(chains@) =~= Seq::<Seq<Cell>>::empty());
        assert(fill_run(points@, 0) == b.state_of(0, chain_cells(chains@), FillPhase::Round));
    }
    loop
        invariant_except_break
            fill_run(points@, steps) == b.state_of(head as int, chain_cells(chains@), FillPhase::Round),
        invariant
            b.inv(),
            b.pts@ == points@,
            head <= b.queue@.len(),
            b.count() >= 0,
            chains_well_placed(points@, chain_cells(chains@)),
            follows_moore(points@, chain_cells(chains@), rs, ds),
            forall|a: int, j: int|
                0 <= a < chains@.len() && 0 <= j < b.pts@.len() && #[trigger] b.present@[j]
                    ==> #[trigger] rs[a].contains(b.pts@[j]),
            forall|a: int, k: int|
                0 <= a < chains@.len() && 0 <= k < chains@[a]@.len() ==> absent(
                    b.pts@,
                    b.present@,
                    #[trigger] chains@[a]@[k],
                ),
            forall|a: int, j: int|
                0 <= a < chains@.len() && 0 <= j < b.pts@.len() && #[trigger] b.present@[j]
                    ==> cell_lt(#[trigger] chains@[a]@[0], b.pts@[j]),
        ensures
            fill_run(points@, steps).phase is Done,
            fill_run(points@, steps).chains == chain_cells(chains@),
        decreases b.count(),
    {
        proof {
            lemma_step_round(points@, fill_run(points@, steps));
            assert(fill_run(points@, steps + 1) == fill_step(points@, fill_run(points@, steps)));
            steps = steps + 1;
        }
        if !b.any_present() {
            break;
        }
        let ghost count0 = b.count();
        proof {
            lemma_weight_nonneg(b.present@, b.cnt@, b.pts@.len());
        }
        // Take away the tails.
        while head < b.queue.len()
            invariant
                fill_run(points@, steps) == b.state_of(head as int, chain_cells(chains@), FillPhase::Tails),
                b.inv(),
                b.pts@ == points@,
                head <= b.queue@.len(),
                b.count() <= count0,
                b.count() >= 0,
                b.weight() >= 0,
                chains_well_placed(points@, chain_cells(chains@)),
                follows_moore(points@, chain_cells(chains@), rs, ds),
                forall|a: int, j: int|
                    0 <= a < chains@.len() && 0 <= j < b.pts@.len() && #[trigger] b.present@[j]
                        ==> #[trigger] rs[a].contains(b.pts@[j]),
                forall|a: int, k: int|
                    0 <= a < chains@.len() && 0 <= k < chains@[a]@.len() ==> absent(
                        b.pts@,
                        b.present@,
                        #[trigger] chains@[a]@[k],
                    ),
                forall|a: int, j: int|
                    0 <= a < chains@.len() && 0 <= j < b.pts@.len() && #[trigger] b.present@[j]
                        ==> cell_lt(#[trigger] chains@[a]@[0], b.pts@[j]),
            decreases (b.queue@.len() - head) + b.weight(),
        {
            proof {
                lemma_weight_nonneg(b.present@, b.cnt@, b.pts@.len());
            }
            let idx = b.queue[head];
            head += 1;
            let p = b.pts[idx];
            let ghost before = b;
            b.remove_pt(p);
            proof {
                lemma_step_tails(points@, fill_run(points@, steps));
                assert(fill_run(points@, steps + 1) == fill_step(points@, fill_run(points@, steps)));
                steps = steps + 1;
                lemma_weight_nonneg(b.present@, b.cnt@, b.pts@.len());
                lemma_count_nonneg(b.present@, b.pts@.len());
                    assert forall|a: int, j: int|
                        0 <= a < chains@.len() && 0 <= j < b.pts@.len() && #[trigger] b.present@[j]
                            implies #[trigger] rs[a].contains(b.pts@[j]) by {
                        assert(before.present@[j]);
                    }
                assert forall|a: int, k: int|
                    0 <= a < chains@.len() && 0 <= k < chains@[a]@.len() implies absent(
                    b.pts@,
                    b.present@,
                    #[trigger] chains@[a]@[k],
                ) by {
                    assert(absent(before.pts@, before.present@, chains@[a]@[k]));
                }
            }
        }
        // Take away the inner corners, in the order the cells were given.
        let mut snapshot: Vec<usize> = Vec::new();
        let mut i: usize = 0;
        while i < b.pts.len()
            invariant
                b.inv(),
                i <= b.pts@.len(),
                snapshot@ == present_indices(b.present@, i as int),
                forall|k: int| 0 <= k < snapshot@.len() ==> #[trigger] snapshot@[k] < b.pts@.len(),
            decreases b.pts@.len() - i,
        {
            if b.present[i] {
                snapshot.push(i);
            }
            i += 1;
        }
        proof {
            lemma_step_tails(points@, fill_run(points@, steps));
            assert(fill_run(points@, steps + 1) == fill_step(points@, fill_run(points@, steps)));
            steps = steps + 1;
        }
        let mut si: usize = 0;
        while si < snapshot.len()
            invariant
                fill_run(points@, steps) == b.state_of(
                    head as int,
                    chain_cells(chains@),
                    FillPhase::Corners(snapshot@, si as int),
                ),
                b.inv(),
                b.pts@ == points@,
                head <= b.queue@.len(),
                si <= snapshot@.len(),
                forall|k: int| 0 <= k < snapshot@.len() ==> #[trigger] snapshot@[k] < b.pts@.len(),
                b.count() <= count0,
                b.count() >= 0,
                chains_well_placed(points@, chain_cells(chains@)),
                follows_moore(points@, chain_cells(chains@), rs, ds),
                forall|a: int, j: int|
                    0 <= a < chains@.len() && 0 <= j < b.pts@.len() && #[trigger] b.present@[j]
                        ==> #[trigger] rs[a].contains(b.pts@[j]),
                forall|a: int, k: int|
                    0 <= a < chains@.len() && 0 <= k < chains@[a]@.len() ==> absent(
                        b.pts@,
                        b.present@,
                        #[trigger] chains@[a]@[k],
                    ),
                forall|a: int, j: int|
                    0 <= a < chains@.len() && 0 <= j < b.pts@.len() && #[trigger] b.present@[j]
                        ==> cell_lt(#[trigger] chains@[a]@[0], b.pts@[j]),
            decreases snapshot@.len() - si,
        {
            let k = snapshot[si];
            let p = b.pts[k];
            let up = b.occupied((p.0, p.1 + 1));
            let down = b.occupied((p.0, p.1 - 1));
            let right = b.occupied((p.0 + 1, p.1));
            let left = b.occupied((p.0 - 1, p.1));
            let vertical = up || down;
            let horizontal = left || right;
            let ghost at = fill_run(points@, steps);
            proof {
                lemma_step_corner(points@, at, snapshot@, si as int);
                assert(fill_run(points@, steps + 1) == fill_step(points@, at));
                steps = steps + 1;
            }
            if vertical && horizontal && b.cnt[k] == 2 {
                let ghost before = b;
                b.remove_pt(p);
                proof {
                    lemma_count_nonneg(b.present@, b.pts@.len());
                    assert forall|a: int, j: int|
                        0 <= a < chains@.len() && 0 <= j < b.pts@.len() && #[trigger] b.present@[j]
                            implies #[trigger] rs[a].contains(b.pts@[j]) by {
                        assert(before.present@[j]);
                    }
                    assert forall|a: int, k: int|
                        0 <= a < chains@.len() && 0 <= k < chains@[a]@.len() implies absent(
                        b.pts@,
                        b.present@,
                        #[trigger] chains@[a]@[k],
                    ) by {
                        assert(absent(before.pts@, before.present@, chains@[a]@[k]));
                    }
                }
            }
            si += 1;
        }
        if !b.any_present() {
            proof {
                lemma_step_corners_end(points@, fill_run(points@, steps), snapshot@);
                assert(fill_run(points@, steps + 1) == fill_step(points@, fill_run(points@, steps)));
                steps = steps + 1;
            }
            break;
        }
        // Trace one chain.
        let start = b.leftmost();
        let ghost before = b;
        let ghost r = b.present_set();
        let (closed, chain, Ghost(dirs), Ghost(steps_after)) = trace_chain(
            &mut b,
            start,
            Ghost(steps),
            Ghost(head as int),
            Ghost(chain_cells(chains@)),
            Ghost(snapshot@),
        );
        proof {
            steps = steps_after;
        }
        let ghost first = chain@[0];
        proof {
            lemma_count_nonneg(b.present@, b.pts@.len());
            // Each cell of the new chain was on the boundary before the trace.
            assert forall|k: int| #![trigger chain@[k]] 0 <= k < chain@.len() implies exists|j: int|
                0 <= j < before.pts@.len() && #[trigger] before.present@[j] && before.pts@[j]
                    == chain@[k] by {
                assert(r.contains(chain@[k]));
            }
            assert forall|a: int, k: int|
                0 <= a < chains@.len() && 0 <= k < chains@[a]@.len() implies absent(
                b.pts@,
                b.present@,
                #[trigger] chains@[a]@[k],
            ) by {
                assert(absent(before.pts@, before.present@, chains@[a]@[k]));
            }
            assert forall|k: int| 0 <= k < chain@.len() implies absent(
                b.pts@,
                b.present@,
                #[trigger] chain@[k],
            ) by {
                assert forall|j: int| 0 <= j < b.pts@.len() && #[trigger] b.pts@[j] == chain@[k] implies !b.present@[j] by {
                    assert(chain@.contains(before.pts@[j]));
                }
            }
            assert forall|a: int, j: int|
                0 <= a < chains@.len() && 0 <= j < b.pts@.len() && #[trigger] b.present@[j]
                    implies cell_lt(#[trigger] chains@[a]@[0], b.pts@[j]) by {
                assert(before.present@[j]);
            }
            assert forall|j: int| 0 <= j < b.pts@.len() && #[trigger] b.present@[j] implies cell_lt(
                first,
                b.pts@[j],
            ) by {
                assert(before.present@[j]);
                assert(!chain@.contains(before.pts@[j]));
                if j == start {
                    assert(chain@[0] == before.pts@[j]);
                }
            }
            assert forall|a: int, j: int|
                0 <= a < chains@.len() && 0 <= j < b.pts@.len() && #[trigger] b.present@[j]
                    implies #[trigger] rs[a].contains(b.pts@[j]) by {
                assert(before.present@[j]);
            }
            assert forall|j: int| 0 <= j < b.pts@.len() && #[trigger] b.present@[j] implies r.contains(b.pts@[j]) by {
                assert(before.present@[j]);
            }
        }
        if closed {
            let ghost old_chains = chains@;
            chains.push(chain);
            proof {
                assert(chain_cells(chains@) =~= chain_cells(old_chains).push(chain@));
                assert(chains@[old_chains.len() as int]@ == chain@);
                assert forall|a: int| 0 <= a < old_chains.len() implies chains@[a] == old_chains[a] by {}
                let cs = chain_cells(chains@);
                let ocs = chain_cells(old_chains);
                let n = old_chains.len() as int;
                assert(cs.len() == n + 1);
                assert(cs[n] == chain@);
                assert forall|a: int| 0 <= a < n implies cs[a] == ocs[a] by {}
                assert(closed_walk(cs[n])) by {
                    assert forall|k: int| 0 <= k < chain@.len() - 1 implies #[trigger] adjacent(
                        chain@[k],
                        chain@[k + 1],
                    ) by {}
                }
                assert forall|a: int| 0 <= a < cs.len() implies closed_walk(#[trigger] cs[a]) by {
                    if a < n {
                        assert(cs[a] == ocs[a]);
                        assert(closed_walk(ocs[a]));
                    }
                }
                assert forall|a: int, k: int|
                    0 <= a < cs.len() && 0 <= k < cs[a].len() implies points@.contains(#[trigger] cs[a][k]) by {
                    if a < n {
                        assert(cs[a] == ocs[a]);
                    } else {
                        let j = choose|j: int|
                            0 <= j < before.pts@.len() && #[trigger] before.present@[j] && before.pts@[j]
                                == chain@[k];
                        assert(points@[j] == chain@[k]);
                    }
                }
                assert forall|a: int, k: int, bb: int, l: int|
                    0 <= a < cs.len() && 0 <= k < cs[a].len() && 0 <= bb < cs.len() && 0 <= l < cs[bb].len()
                        && #[trigger] cs[a][k] == #[trigger] cs[bb][l] implies a == bb && k == l by {
                    if a < n && bb < n {
                        assert(cs[a] == ocs[a] && cs[bb] == ocs[bb]);
                        assert(ocs[a][k] == ocs[bb][l]);
                    } else if a < n {
                        assert(cs[a] == ocs[a]);
                        let j = choose|j: int|
                            0 <= j < before.pts@.len() && #[trigger] before.present@[j] && before.pts@[j]
                                == chain@[l];
                        assert(absent(before.pts@, before.present@, chains@[a]@[k]));
                    } else if bb < n {
                        assert(cs[bb] == ocs[bb]);
                        let j = choose|j: int|
                            0 <= j < before.pts@.len() && #[trigger] before.present@[j] && before.pts@[j]
                                == chain@[k];
                        assert(absent(before.pts@, before.present@, chains@[bb]@[l]));
                    } else {
                        assert(chain@.no_duplicates());
                    }
                }
                assert forall|a: int, bb: int, k: int|
                    0 <= a <= bb < cs.len() && 0 <= k < cs[bb].len() && (a < bb || k > 0) implies cell_lt(
                    #[trigger] cs[a][0],
                    #[trigger] cs[bb][k],
                ) by {
                    if bb < n {
                        assert(cs[a] == ocs[a] && cs[bb] == ocs[bb]);
                        assert(cell_lt(ocs[a][0], ocs[bb][k]));
                    } else {
                        let j = choose|j: int|
                            0 <= j < before.pts@.len() && #[trigger] before.present@[j] && before.pts@[j]
                                == chain@[k];
                        if a < n {
                            assert(cs[a] == ocs[a]);
                            assert(cell_lt(chains@[a]@[0], before.pts@[j]));
                        } else {
                            assert(chain@[0] != chain@[k]);
                            assert(j != start);
                        }
                    }
                }
                let nrs = rs.push(r);
                let nds = ds.push(dirs);
                assert(follows_moore(points@, cs, nrs, nds)) by {
                    assert forall|a: int| 0 <= a < cs.len() implies #[trigger] moore_trace(nrs[a], cs[a], nds[a]) by {
                        if a < n {
                            assert(cs[a] == ocs[a]);
                            assert(moore_trace(rs[a], ocs[a], ds[a]));
                        }
                    }
                    assert forall|a: int, p: Cell|
                        0 <= a < cs.len() && #[trigger] nrs[a].contains(p) implies points@.contains(p) && (p
                            == cs[a][0] || cell_lt(cs[a][0], p)) by {
                        if a < n {
                            assert(cs[a] == ocs[a]);
                            assert(rs[a].contains(p));
                        } else {
                            let j = choose|j: int|
                                0 <= j < before.pts@.len() && before.present@[j] && before.pts@[j] == p;
                            assert(points@[j] == p);
                            if j != start {
                                assert(cell_lt(before.pts@[start as int], before.pts@[j]));
                            }
                        }
                    }
                    assert forall|a: int, bb: int, p: Cell|
                        #![trigger nrs[bb].contains(p), nrs[a]]
                        0 <= a < bb < cs.len() && nrs[bb].contains(p) implies nrs[a].contains(p) && !cs[a].contains(p) by {
                        assert(cs[a] == ocs[a]);
                        if bb < n {
                            assert(rs[bb].contains(p));
                            assert(rs[a].contains(p));
                        } else {
                            let j = choose|j: int|
                                0 <= j < before.pts@.len() && before.present@[j] && before.pts@[j] == p;
                            assert(rs[a].contains(before.pts@[j]));
                            if ocs[a].contains(p) {
                                let k = choose|k: int| 0 <= k < ocs[a].len() && ocs[a][k] == p;
                                assert(absent(before.pts@, before.present@, chains@[a]@[k]));
                            }
                        }
                    }
                }
                assert forall|a: int, j: int|
                    0 <= a < nrs.len() && 0 <= j < b.pts@.len() && #[trigger] b.present@[j]
                        implies #[trigger] nrs[a].contains(b.pts@[j]) by {
                    if a < n {
                        assert(nrs[a] == rs[a]);
                        assert(rs[a].contains(b.pts@[j]));
                    }
                }
                assert(chains_well_placed(points@, cs));
                rs = nrs;
                ds = nds;
            }
        }
    }
    proof {
        assert(follows_moore(points@, chain_cells(chains@), rs, ds));
        lemma_fill_chains(points@, steps);
    }
    chains
}

} // verus!
