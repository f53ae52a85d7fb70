use vstd::prelude::*;

use std::collections::HashSet;

use crate::fill::{cell_in_range, cell_key, key_of, lemma_cell_key_injective, Cell};

verus! {

broadcast use vstd::std_specs::hash::group_hash_axioms;

/// The four flood directions, in the order they are tried: east, north,
/// west, south.
pub open spec fn flood_step(dir: int) -> (int, int) {
    if dir == 0 {
        (1, 0)
    } else if dir == 1 {
        (0, 1)
    } else if dir == 2 {
        (-1, 0)
    } else {
        (0, -1)
    }
}

/// The neighbour of `p` in flood direction `dir`.
pub open spec fn flood_neighbour(p: Cell, dir: int) -> Cell {
    ((p.0 + flood_step(dir).0) as i32, (p.1 + flood_step(dir).1) as i32)
}

/// A cell far enough from the edge of `i32` for three grid steps in any direction.
pub open spec fn cell_well_inside(p: Cell) -> bool {
    &&& i32::MIN + 3 <= p.0 <= i32::MAX - 3
    &&& i32::MIN + 3 <= p.1 <= i32::MAX - 3
}

/// The pair (cell index, direction) `a` comes strictly before `b` in the
/// order the flood fill looks at neighbours.
pub open spec fn cursor_before(a: (int, int), b: (int, int)) -> bool {
    a.0 < b.0 || (a.0 == b.0 && a.1 < b.1)
}

/// What the geometry says of the step from a reached cell to its neighbour:
/// the fill may enter the neighbour, or a stroke or the edge of the view
/// blocks the way and the neighbour lies on the boundary.
#[derive(Debug, Clone, Copy, PartialEq, Eq, Structural)]
pub enum ProbeOutcome {
    Open,
    Blocked,
}

/// Step 1 of the bucket fill: a breadth-first flood over grid cells from the
/// clicked cell. It hands out, one at a time, each step from a reached cell
/// to a neighbour not reached yet, in breadth-first order and trying east,
/// north, west and south; the caller says whether the step is open, and the
/// fill either reaches the neighbour or records it on the boundary.
pub struct FloodFill {
    cells: Vec<Cell>,
    reached: HashSet<u64>,
    head: usize,
    dir: usize,
    pending: Option<Cell>,
    boundary: Vec<Cell>,
    boundary_keys: HashSet<u64>,
}

impl FloodFill {
    /// The reached cells, in the order they were reached.
    pub closed spec fn reached_cells(&self) -> Seq<Cell> {
        self.cells@
    }

    /// The boundary cells, in the order they were first met.
    pub closed spec fn boundary_cells(&self) -> Seq<Cell> {
        self.boundary@
    }

    /// The reached cell being expanded and the next direction to try.
    pub closed spec fn cursor(&self) -> (int, int) {
        (self.head as int, self.dir as int)
    }

    /// The neighbour handed out and not reported on yet.
    pub closed spec fn pending_cell(&self) -> Option<Cell> {
        self.pending
    }

    /// Every step before the cursor led to a reached cell or to the boundary.
    pub open spec fn covered_before(&self, upto: (int, int)) -> bool {
        forall|h: int, d: int|
            #![trigger flood_neighbour(self.reached_cells()[h], d)]
            0 <= h < self.reached_cells().len() && 0 <= d < 4 && cursor_before((h, d), upto) ==> {
                let n = flood_neighbour(self.reached_cells()[h], d);
                self.reached_cells().contains(n) || self.boundary_cells().contains(n)
            }
    }

    /// Every step from every reached cell leads to a reached cell or to the
    /// boundary: the fill has nowhere left to go.
    pub open spec fn is_closed(&self) -> bool {
        forall|h: int, d: int|
            #![trigger flood_neighbour(self.reached_cells()[h], d)]
            0 <= h < self.reached_cells().len() && 0 <= d < 4 ==> {
                let n = flood_neighbour(self.reached_cells()[h], d);
                self.reached_cells().contains(n) || self.boundary_cells().contains(n)
            }
    }

    /// Every step from `from` (inclusive) to `upto` (exclusive) leads to a
    /// reached cell.
    pub open spec fn reached_between(&self, from: (int, int), upto: (int, int)) -> bool {
        forall|h: int, d: int|
            #![trigger flood_neighbour(self.reached_cells()[h], d)]
            0 <= h < self.reached_cells().len() && 0 <= d < 4 && !cursor_before((h, d), from)
                && cursor_before((h, d), upto) ==> self.reached_cells().contains(
                flood_neighbour(self.reached_cells()[h], d),
            )
    }

    /// The fill's bookkeeping is consistent: the key sets hold the keys of
    /// the reached and boundary cells, and the cursor, the pending step and
    /// the steps looked at so far agree with the cells.
    pub closed spec fn wf(&self) -> bool {
        &&& self.cells@.no_duplicates()
        &&& forall|i: int| 0 < i < self.cells@.len() ==> #[trigger] entered_from_earlier(self.cells@, i)
        &&& forall|i: int| 0 <= i < self.cells@.len() ==> cell_well_inside(#[trigger] self.cells@[i])
        &&& forall|i: int| 0 <= i < self.cells@.len() ==> self.reached@.contains(cell_key(#[trigger] self.cells@[i]))
        &&& forall|k: u64| #[trigger] self.reached@.contains(k) ==> exists|i: int|
            0 <= i < self.cells@.len() && cell_key(self.cells@[i]) == k
        &&& self.boundary@.no_duplicates()
        &&& forall|i: int| 0 <= i < self.boundary@.len() ==> cell_in_range(#[trigger] self.boundary@[i])
        &&& forall|i: int| 0 <= i < self.boundary@.len() ==> self.boundary_keys@.contains(cell_key(#[trigger] self.boundary@[i]))
        &&& forall|k: u64| #[trigger] self.boundary_keys@.contains(k) ==> exists|i: int|
            0 <= i < self.boundary@.len() && cell_key(self.boundary@[i]) == k
        &&& self.head <= self.cells@.len()
        &&& self.dir < 4
        &&& self.head == self.cells@.len() ==> self.dir == 0
        &&& match self.pending {
            Some(n) => {
                &&& self.head < self.cells@.len()
                &&& self.dir < 4
                &&& n == flood_neighbour(self.cells@[self.head as int], self.dir as int)
                &&& !self.cells@.contains(n)
            },
            None => true,
        }
        &&& self.covered_before(self.cursor())
    }

    /// A fill that has reached only the `start` cell.
    pub fn new(start: Cell) -> (res: Self)
        requires
            cell_well_inside(start),
        ensures
            res.wf(),
            res.reached_cells() == seq![start],
            res.boundary_cells() == Seq::<Cell>::empty(),
            res.cursor() == (0int, 0int),
            res.pending_cell() is None,
    {
        let mut cells: Vec<Cell> = Vec::new();
        cells.push(start);
        let mut reached: HashSet<u64> = HashSet::new();
        reached.insert(key_of(start));
        let res = FloodFill {
            cells,
            reached,
            head: 0,
            dir: 0,
            pending: None,
            boundary: Vec::new(),
            boundary_keys: HashSet::new(),
        };
        proof {
            assert(res.cells@ =~= seq![start]);
            assert forall|k: u64| #[trigger] res.reached@.contains(k) implies exists|i: int|
                0 <= i < res.cells@.len() && cell_key(res.cells@[i]) == k by {
                assert(cell_key(res.cells@[0]) == k);
            }
        }
        res
    }

    fn is_reached(&self, p: Cell) -> (res: bool)
        requires
            self.wf(),
        ensures
            res == self.reached_cells().contains(p),
    {
        let r = self.reached.contains(&key_of(p));
        proof {
            if r {
                let i = choose|i: int| 0 <= i < self.cells@.len() && cell_key(self.cells@[i]) == cell_key(p);
                lemma_cell_key_injective(self.cells@[i], p);
            } else {
                if self.cells@.contains(p) {
                    let i = choose|i: int| 0 <= i < self.cells@.len() && self.cells@[i] == p;
                    assert(self.reached@.contains(cell_key(self.cells@[i])));
                }
            }
        }
        r
    }

    fn on_boundary(&self, p: Cell) -> (res: bool)
        requires
            self.wf(),
        ensures
            res == self.boundary_cells().contains(p),
    {
        let r = self.boundary_keys.contains(&key_of(p));
        proof {
            if r {
                let i = choose|i: int| 0 <= i < self.boundary@.len() && cell_key(self.boundary@[i]) == cell_key(p);
                lemma_cell_key_injective(self.boundary@[i], p);
            } else {
                if self.boundary@.contains(p) {
                    let i = choose|i: int| 0 <= i < self.boundary@.len() && self.boundary@[i] == p;
                    assert(self.boundary_keys@.contains(cell_key(self.boundary@[i])));
                }
            }
        }
        r
    }
}

/// The `i`-th reached cell is a neighbour of a cell reached before it.
pub open spec fn entered_from_earlier(cells: Seq<Cell>, i: int) -> bool {
    exists|h: int, d: int| 0 <= h < i && 0 <= d < 4 && cells[i] == flood_neighbour(cells[h], d)
}

/// The position after `c` in the order the fill looks at steps.
pub open spec fn cursor_after(c: (int, int)) -> (int, int) {
    if c.1 + 1 < 4 {
        (c.0, c.1 + 1)
    } else {
        (c.0 + 1, 0)
    }
}

impl FloodFill {
    /// Moves to the next step whose neighbour is not reached yet and hands
    /// it out as (reached cell, neighbour); `None` once every step of every
    /// reached cell has been looked at, and then the fill is closed.
    pub fn next_probe(&mut self) -> (res: Option<(Cell, Cell)>)
        requires
            old(self).wf(),
            old(self).pending_cell() is None,
        ensures
            final(self).wf(),
            final(self).reached_cells() == old(self).reached_cells(),
            final(self).boundary_cells() == old(self).boundary_cells(),
            !cursor_before(final(self).cursor(), old(self).cursor()),
            final(self).reached_between(old(self).cursor(), final(self).cursor()),
            match res {
                Some((from, to)) => {
                    &&& final(self).pending_cell() == Some(to)
                    &&& 0 <= final(self).cursor().0 < final(self).reached_cells().len()
                    &&& 0 <= final(self).cursor().1 < 4
                    &&& from == final(self).reached_cells()[final(self).cursor().0]
                    &&& to == flood_neighbour(from, final(self).cursor().1)
                    &&& !final(self).reached_cells().contains(to)
                },
                None => {
                    &&& final(self).pending_cell() is None
                    &&& final(self).cursor() == (final(self).reached_cells().len() as int, 0int)
                    &&& final(self).is_closed()
                },
            },
    {
        let ghost start = self.cursor();
        while self.head < self.cells.len()
            invariant
                self.wf(),
                self.pending is None,
                self.cells@ == old(self).cells@,
                self.boundary@ == old(self).boundary@,
                !cursor_before(self.cursor(), start),
                self.reached_between(start, self.cursor()),
                start == old(self).cursor(),
            decreases self.cells@.len() - self.head, 4 - self.dir,
        {
            let from = self.cells[self.head];
            let to = neighbour(from, self.dir);
            if self.is_reached(to) {
                proof {
                    let c = self.cursor();
                    assert(flood_neighbour(self.cells@[c.0], c.1) == to);
                }
                if self.dir + 1 < 4 {
                    self.dir = self.dir + 1;
                } else {
                    self.head = self.head + 1;
                    self.dir = 0;
                }
                proof {
                    let c = self.cursor();
                    assert forall|h: int, d: int|
                        #![trigger flood_neighbour(self.reached_cells()[h], d)]
                        0 <= h < self.reached_cells().len() && 0 <= d < 4 && cursor_before((h, d), c)
                        implies {
                            let n = flood_neighbour(self.reached_cells()[h], d);
                            self.reached_cells().contains(n) || self.boundary_cells().contains(n)
                        } by {
                    }
                }
            } else {
                self.pending = Some(to);
                return Some((from, to));
            }
        }
        proof {
            assert forall|h: int, d: int|
                #![trigger flood_neighbour(self.reached_cells()[h], d)]
                0 <= h < self.reached_cells().len() && 0 <= d < 4 implies {
                    let n = flood_neighbour(self.reached_cells()[h], d);
                    self.reached_cells().contains(n) || self.boundary_cells().contains(n)
                } by {
                assert(cursor_before((h, d), self.cursor()));
            }
        }
        None
    }

    /// Takes the caller's answer on the step handed out last: an open step
    /// reaches the neighbour, a blocked one puts it on the boundary (once).
    /// The cursor moves past the step either way.
    pub fn report(&mut self, outcome: ProbeOutcome)
        requires
            old(self).wf(),
            old(self).pending_cell() is Some,
            outcome == ProbeOutcome::Open ==> cell_well_inside(old(self).pending_cell().unwrap()),
        ensures
            final(self).wf(),
            final(self).pending_cell() is None,
            final(self).cursor() == cursor_after(old(self).cursor()),
            outcome == ProbeOutcome::Open ==> {
                &&& final(self).reached_cells() == old(self).reached_cells().push(
                    old(self).pending_cell().unwrap(),
                )
                &&& final(self).boundary_cells() == old(self).boundary_cells()
            },
            outcome == ProbeOutcome::Blocked ==> {
                &&& final(self).reached_cells() == old(self).reached_cells()
                &&& final(self).boundary_cells() == if old(self).boundary_cells().contains(
                    old(self).pending_cell().unwrap(),
                ) {
                    old(self).boundary_cells()
                } else {
                    old(self).boundary_cells().push(old(self).pending_cell().unwrap())
                }
            },
    {
        let n = self.pending.unwrap();
        let ghost c = self.cursor();
        let ghost old_cells = self.cells@;
        let ghost old_boundary = self.boundary@;
        proof {
            assert(cell_well_inside(self.cells@[c.0]));
            assert(self.head < self.cells.len());
            assert(n == flood_neighbour(old_cells[c.0], c.1));
        }
        let already = self.on_boundary(n);
        self.pending = None;
        match outcome {
            ProbeOutcome::Open => {
                self.cells.push(n);
                self.reached.insert(key_of(n));
                proof {
                    assert(self.cells@[old_cells.len() as int] == n);
                    assert forall|i: int| 0 < i < self.cells@.len() implies #[trigger] entered_from_earlier(
                        self.cells@,
                        i,
                    ) by {
                        if i < old_cells.len() {
                            assert(entered_from_earlier(old_cells, i));
                            let (h, d) = choose|h: int, d: int|
                                0 <= h < i && 0 <= d < 4 && old_cells[i] == flood_neighbour(old_cells[h], d);
                            assert(self.cells@[h] == old_cells[h]);
                        } else {
                            assert(self.cells@[c.0] == old_cells[c.0]);
                        }
                    }
                    assert forall|k: u64| #[trigger] self.reached@.contains(k) implies exists|i: int|
                        0 <= i < self.cells@.len() && cell_key(self.cells@[i]) == k by {
                        if k == cell_key(n) {
                            assert(cell_key(self.cells@[old_cells.len() as int]) == k);
                        } else {
                            let i = choose|i: int| 0 <= i < old_cells.len() && cell_key(old_cells[i]) == k;
                            assert(cell_key(self.cells@[i]) == k);
                        }
                    }
                }
            },
            ProbeOutcome::Blocked => {
                if !already {
                    self.boundary.push(n);
                    self.boundary_keys.insert(key_of(n));
                    proof {
                        assert(self.boundary@[old_boundary.len() as int] == n);
                        assert forall|k: u64| #[trigger] self.boundary_keys@.contains(k) implies exists|i: int|
                            0 <= i < self.boundary@.len() && cell_key(self.boundary@[i]) == k by {
                            if k == cell_key(n) {
                                assert(cell_key(self.boundary@[old_boundary.len() as int]) == k);
                            } else {
                                let i = choose|i: int| 0 <= i < old_boundary.len() && cell_key(old_boundary[i]) == k;
                                assert(cell_key(self.boundary@[i]) == k);
                            }
                        }
                    }
                }
            },
        }
        if self.dir + 1 < 4 {
            self.dir = self.dir + 1;
        } else {
            self.head = self.head + 1;
            self.dir = 0;
        }
        proof {
            assert(old_cells.is_prefix_of(self.cells@));
            assert(old_boundary.is_prefix_of(self.boundary@));
            assert(flood_neighbour(self.cells@[c.0], c.1) == n);
            assert(self.cells@.contains(n) || self.boundary@.contains(n));
            let nc = self.cursor();
            assert forall|h: int, d: int|
                #![trigger flood_neighbour(self.reached_cells()[h], d)]
                0 <= h < self.reached_cells().len() && 0 <= d < 4 && cursor_before((h, d), nc)
                implies {
                    let m = flood_neighbour(self.reached_cells()[h], d);
                    self.reached_cells().contains(m) || self.boundary_cells().contains(m)
                } by {
                assert(self.cells@[h] == old_cells[h]);
                let m = flood_neighbour(old_cells[h], d);
                if (h, d) != c {
                    assert(cursor_before((h, d), c));
                    assert(old(self).covered_before(c));
                    assert(flood_neighbour(old(self).reached_cells()[h], d) == m);
                    assert(old_cells.contains(m) || old_boundary.contains(m));
                    if old_cells.contains(m) {
                        let j = choose|j: int| 0 <= j < old_cells.len() && old_cells[j] == m;
                        assert(self.cells@[j] == m);
                    } else {
                        let j = choose|j: int| 0 <= j < old_boundary.len() && old_boundary[j] == m;
                        assert(self.boundary@[j] == m);
                    }
                }
            }
        }
    }
}

impl FloodFill {
    /// The boundary met so far, each cell once and in the range that
    /// `trace_fill_boundary` takes.
    pub fn boundary(&self) -> (b: &Vec<Cell>)
        requires
            self.wf(),
        ensures
            b@ == self.boundary_cells(),
            b@.no_duplicates(),
            forall|i: int| 0 <= i < b@.len() ==> cell_in_range(#[trigger] b@[i]),
    {
        &self.boundary
    }

    /// No cell is reached twice, and every reached cell but the first was
    /// entered from a cell reached before it: the filled region is connected
    /// to the clicked cell.
    pub proof fn lemma_reached_cells(&self)
        requires
            self.wf(),
        ensures
            self.reached_cells().no_duplicates(),
            forall|i: int|
                0 < i < self.reached_cells().len() ==> #[trigger] entered_from_earlier(
                    self.reached_cells(),
                    i,
                ),
    {
    }
}

fn neighbour(p: Cell, dir: usize) -> (n: Cell)
    requires
        cell_well_inside(p),
        dir < 4,
    ensures
        n == flood_neighbour(p, dir as int),
        cell_in_range(n),
{
    if dir == 0 {
        (p.0 + 1, p.1)
    } else if dir == 1 {
        (p.0, p.1 + 1)
    } else if dir == 2 {
        (p.0 - 1, p.1)
    } else {
        (p.0, p.1 - 1)
    }
}

} // verus!
