//! The model of one assembly: the kernel that grows, the frontier of
//! candidates, and the rules by which both change.

use vstd::prelude::*;
use crate::adjacency::AdjacencyData;
use crate::direction::Direction;
use crate::grid::{
    is_arrangement, lemma_cell_number, lemma_pigeonhole, lemma_sole_owner, neighbor_in, occurs,
    owner_of, MAX_CELLS,
};

verus! {

/// Priority of a piece that both parents place on that side of the anchor.
pub const MUTUALLY_AGREED_PRIORITY: u64 = 0;

/// Priority of the anchor's best buddy where a parent places it there.
pub const BUDDY_PRIORITY: u64 = 1;

/// A ranked neighbour has this priority plus its score.
pub const RANKED_PRIORITY: u64 = 2;

/// A proposal to put `piece` at `position`, made because `position` lies
/// on the side `relation` of the placed piece `anchor`.  A smaller
/// `priority` is tried first.
#[derive(Clone, Copy, Debug)]
pub struct Candidate {
    pub piece: usize,
    pub position: (i32, i32),
    pub anchor: usize,
    pub relation: Direction,
    pub priority: u64,
}

/// What an assembly is given: two parents and the compatibility index.
pub struct Puzzle {
    pub first: Seq<Seq<usize>>,
    pub second: Seq<Seq<usize>>,
    pub index: AdjacencyData,
}

/// The coordinate next to `pos` on the side `dir`.
pub open spec fn slot_of(pos: (i32, i32), dir: Direction) -> (i32, i32) {
    match dir {
        Direction::Up => ((pos.0 - 1) as i32, pos.1),
        Direction::Right => (pos.0, (pos.1 + 1) as i32),
        Direction::Down => ((pos.0 + 1) as i32, pos.1),
        Direction::Left => (pos.0, (pos.1 - 1) as i32),
    }
}

/// The first entry of `list` at or after `from` whose piece is not placed.
pub open spec fn first_available(
    list: Seq<(u64, usize)>,
    positions: Seq<Option<(i32, i32)>>,
    from: nat,
) -> Option<nat>
    decreases list.len() - from,
{
    if from >= list.len() {
        None
    } else if positions[list[from as int].1 as int] is None {
        Some(from)
    } else {
        first_available(list, positions, from + 1)
    }
}

impl Puzzle {
    /// Rows of the target grid.
    pub open spec fn rows(self) -> nat {
        self.first.len()
    }

    /// Columns of the target grid.
    pub open spec fn cols(self) -> nat {
        self.first[0].len()
    }

    /// Number of pieces.
    pub open spec fn count(self) -> nat {
        self.rows() * self.cols()
    }

    /// Both parents are complete arrangements of the pieces of the index,
    /// in a grid of at least one and at most [`MAX_CELLS`] cells.
    pub open spec fn wf(self) -> bool {
        &&& self.rows() >= 1
        &&& self.cols() >= 1
        &&& self.count() <= MAX_CELLS
        &&& is_arrangement(self.first, self.rows(), self.cols())
        &&& is_arrangement(self.second, self.rows(), self.cols())
        &&& self.index.wf()
        &&& self.index.piece_count() == self.count()
    }

    /// Neither side of the grid exceeds the number of cells.
    pub proof fn lemma_sides_bounded(self)
        requires
            self.wf(),
        ensures
            1 <= self.rows() <= MAX_CELLS,
            1 <= self.cols() <= MAX_CELLS,
            self.count() >= 1,
    {
        let rows = self.rows() as int;
        let cols = self.cols() as int;
        assert(rows <= rows * cols && cols <= rows * cols) by (nonlinear_arith)
            requires
                rows >= 1,
                cols >= 1,
        ;
    }

    /// The piece that both parents place on the side `dir` of `piece`.
    pub open spec fn agreed(self, piece: usize, dir: Direction) -> Option<usize> {
        match (neighbor_in(self.first, piece, dir), neighbor_in(self.second, piece, dir)) {
            (Some(a), Some(b)) => if a == b {
                Some(a)
            } else {
                None
            },
            _ => None,
        }
    }

    /// The best buddy of `piece` on the side `dir`, where at least one
    /// parent places it there.
    pub open spec fn placed_buddy(self, piece: usize, dir: Direction) -> Option<usize> {
        match self.index.buddy_spec(piece as int, dir) {
            Some(b) => if neighbor_in(self.first, piece, dir) == Some(b) || neighbor_in(
                self.second,
                piece,
                dir,
            ) == Some(b) {
                Some(b)
            } else {
                None
            },
            None => None,
        }
    }

    /// The piece proposed for the side `dir` of `anchor`, with its
    /// priority: the mutually agreed piece; else the placed best buddy;
    /// else the best ranked neighbour; each only if not placed yet.
    pub open spec fn proposal(
        self,
        positions: Seq<Option<(i32, i32)>>,
        anchor: usize,
        dir: Direction,
    ) -> Option<(usize, u64)> {
        let agreed = self.agreed(anchor, dir);
        let buddy = self.placed_buddy(anchor, dir);
        let list = self.index.ranked(anchor as int, dir);
        if agreed is Some && positions[agreed.unwrap() as int] is None {
            Some((agreed.unwrap(), MUTUALLY_AGREED_PRIORITY))
        } else if buddy is Some && positions[buddy.unwrap() as int] is None {
            Some((buddy.unwrap(), BUDDY_PRIORITY))
        } else {
            match first_available(list, positions, 0) {
                Some(i) => Some((list[i as int].1, (list[i as int].0 + RANKED_PRIORITY) as u64)),
                None => None,
            }
        }
    }
}

/// The frontier after a candidate for `slot` on the side `dir` of `anchor`
/// was asked for: the proposal is added at the end, if there is one.
pub open spec fn with_proposal(
    frontier: Seq<Candidate>,
    puzzle: Puzzle,
    positions: Seq<Option<(i32, i32)>>,
    anchor: usize,
    dir: Direction,
    slot: (i32, i32),
) -> Seq<Candidate> {
    match puzzle.proposal(positions, anchor, dir) {
        Some((piece, priority)) => frontier.push(
            Candidate { piece, position: slot, anchor, relation: dir, priority },
        ),
        None => frontier,
    }
}

/// The place in `frontier` of the candidate to try next among the first
/// `upto`: the first of those with the smallest priority.
pub open spec fn best_index(frontier: Seq<Candidate>, upto: nat) -> int
    decreases upto,
{
    if upto <= 1 {
        0
    } else {
        let before = best_index(frontier, (upto - 1) as nat);
        if frontier[upto - 1].priority < frontier[before].priority {
            upto - 1
        } else {
            before
        }
    }
}

/// How much a candidate counts when the work left is measured: 2 if its
/// piece is placed already, else 1.
pub open spec fn weight_of(candidate: Candidate, positions: Seq<Option<(i32, i32)>>) -> nat {
    if positions[candidate.piece as int] is Some {
        2
    } else {
        1
    }
}

/// The summed weights of the candidates of a frontier.
pub open spec fn burden(frontier: Seq<Candidate>, positions: Seq<Option<(i32, i32)>>) -> nat
    decreases frontier.len(),
{
    if frontier.len() == 0 {
        0
    } else {
        burden(frontier.drop_last(), positions) + weight_of(frontier.last(), positions)
    }
}

/// How many pieces are not placed.
pub open spec fn vacancies(positions: Seq<Option<(i32, i32)>>) -> nat
    decreases positions.len(),
{
    if positions.len() == 0 {
        0
    } else {
        vacancies(positions.drop_last()) + if positions.last() is None {
            1nat
        } else {
            0nat
        }
    }
}

/// A candidate added to the frontier adds its weight.
pub proof fn lemma_burden_push(
    frontier: Seq<Candidate>,
    positions: Seq<Option<(i32, i32)>>,
    candidate: Candidate,
)
    ensures
        burden(frontier.push(candidate), positions) == burden(frontier, positions) + weight_of(
            candidate,
            positions,
        ),
{
    assert(frontier.push(candidate).drop_last() =~= frontier);
}

/// A candidate taken out of the frontier takes its weight along.
pub proof fn lemma_burden_remove(
    frontier: Seq<Candidate>,
    positions: Seq<Option<(i32, i32)>>,
    at: int,
)
    requires
        0 <= at < frontier.len(),
    ensures
        burden(frontier.remove(at), positions) + weight_of(frontier[at], positions) == burden(
            frontier,
            positions,
        ),
    decreases frontier.len(),
{
    if at == frontier.len() - 1 {
        assert(frontier.remove(at) =~= frontier.drop_last());
    } else {
        lemma_burden_remove(frontier.drop_last(), positions, at);
        assert(frontier.remove(at).drop_last() =~= frontier.drop_last().remove(at));
        assert(frontier.remove(at).last() == frontier.last());
    }
}

/// Placing a piece leaves one piece less to place.
pub proof fn lemma_vacancies_update(
    positions: Seq<Option<(i32, i32)>>,
    piece: int,
    pos: (i32, i32),
)
    requires
        0 <= piece < positions.len(),
        positions[piece] is None,
    ensures
        vacancies(positions.update(piece, Some(pos))) + 1 == vacancies(positions),
    decreases positions.len(),
{
    let next = positions.update(piece, Some(pos));
    if piece == positions.len() - 1 {
        assert(next.drop_last() =~= positions.drop_last());
    } else {
        lemma_vacancies_update(positions.drop_last(), piece, pos);
        assert(next.drop_last() =~= positions.drop_last().update(piece, Some(pos)));
    }
}

/// What `first_available` finds is an entry of the list whose piece is
/// not placed.
pub proof fn lemma_first_available(
    list: Seq<(u64, usize)>,
    positions: Seq<Option<(i32, i32)>>,
    from: nat,
)
    ensures
        first_available(list, positions, from) matches Some(i) ==> from <= i < list.len()
            && positions[list[i as int].1 as int] is None,
        first_available(list, positions, from) is None ==> forall|i: int|
            from <= i < list.len() ==> positions[(#[trigger] list[i]).1 as int] is Some,
    decreases list.len() - from,
{
    if from < list.len() && positions[list[from as int].1 as int] is Some {
        lemma_first_available(list, positions, from + 1);
    }
}

/// The growing arrangement of one assembly.
pub struct Kernel {
    /// Where each piece was placed, by piece id.
    pub positions: Seq<Option<(i32, i32)>>,
    /// The placed pieces, in the order of placing.
    pub order: Seq<usize>,
    /// The coordinates taken, in the order of placing.
    pub occupied: Seq<(i32, i32)>,
    /// The candidates not tried yet.
    pub frontier: Seq<Candidate>,
    /// The bounding box of the coordinates taken or opened.
    pub min_row: i32,
    pub max_row: i32,
    pub min_col: i32,
    pub max_col: i32,
}

impl Kernel {
    /// The kernel before the root is placed.
    pub open spec fn empty(count: nat) -> Kernel {
        Kernel {
            positions: Seq::new(count, |p: int| None::<(i32, i32)>),
            order: Seq::empty(),
            occupied: Seq::empty(),
            frontier: Seq::empty(),
            min_row: 0,
            max_row: 0,
            min_col: 0,
            max_col: 0,
        }
    }

    /// `pos` lies within the bounding box.
    pub open spec fn in_box(self, pos: (i32, i32)) -> bool {
        self.min_row <= pos.0 <= self.max_row && self.min_col <= pos.1 <= self.max_col
    }

    /// The bounding box holds the origin and fits the target footprint.
    pub open spec fn box_fits(self, puzzle: Puzzle) -> bool {
        &&& self.min_row <= 0 <= self.max_row
        &&& self.min_col <= 0 <= self.max_col
        &&& self.max_row - self.min_row < puzzle.rows()
        &&& self.max_col - self.min_col < puzzle.cols()
    }

    /// The pieces recorded as placed are the pieces in `order`, each once,
    /// each at the coordinate taken for it, and no coordinate is taken twice.
    pub open spec fn placement_consistent(self, puzzle: Puzzle) -> bool {
        &&& self.positions.len() == puzzle.count()
        &&& self.order.len() == self.occupied.len()
        &&& forall|k: int|
            0 <= k < self.order.len() ==> (#[trigger] self.order[k]) < puzzle.count()
                && self.positions[self.order[k] as int] == Some(self.occupied[k])
        &&& self.order.no_duplicates()
        &&& self.occupied.no_duplicates()
        &&& forall|p: int|
            0 <= p < puzzle.count() && (#[trigger] self.positions[p]) is Some
                ==> self.order.contains(p as usize)
    }

    /// The invariant of an assembly.
    pub open spec fn wf(self, puzzle: Puzzle) -> bool {
        &&& self.placement_consistent(puzzle)
        &&& self.box_fits(puzzle)
        &&& forall|k: int| 0 <= k < self.occupied.len() ==> self.in_box(#[trigger] self.occupied[k])
        &&& forall|i: int|
            0 <= i < self.frontier.len() ==> {
                &&& self.in_box((#[trigger] self.frontier[i]).position)
                &&& self.frontier[i].piece < puzzle.count()
                &&& self.frontier[i].anchor < puzzle.count()
            }
    }

    /// Every piece is placed.
    pub open spec fn is_full(self, puzzle: Puzzle) -> bool {
        self.occupied.len() == puzzle.count()
    }

    /// The bounding box, widened to hold `row`, spans fewer than `rows` rows.
    pub open spec fn row_in_range(self, puzzle: Puzzle, row: i32) -> bool {
        let low = if row < self.min_row {
            row
        } else {
            self.min_row
        };
        let high = if row > self.max_row {
            row
        } else {
            self.max_row
        };
        high - low < puzzle.rows()
    }

    /// The bounding box, widened to hold `col`, spans fewer than `cols`
    /// columns.
    pub open spec fn col_in_range(self, puzzle: Puzzle, col: i32) -> bool {
        let low = if col < self.min_col {
            col
        } else {
            self.min_col
        };
        let high = if col > self.max_col {
            col
        } else {
            self.max_col
        };
        high - low < puzzle.cols()
    }

    /// Taking `pos` keeps the kernel within the target footprint.
    pub open spec fn in_range(self, puzzle: Puzzle, pos: (i32, i32)) -> bool {
        self.row_in_range(puzzle, pos.0) && self.col_in_range(puzzle, pos.1)
    }

    /// The kernel with its bounding box widened to hold `pos`.
    pub open spec fn extended(self, pos: (i32, i32)) -> Kernel {
        Kernel {
            min_row: if pos.0 < self.min_row {
                pos.0
            } else {
                self.min_row
            },
            max_row: if pos.0 > self.max_row {
                pos.0
            } else {
                self.max_row
            },
            min_col: if pos.1 < self.min_col {
                pos.1
            } else {
                self.min_col
            },
            max_col: if pos.1 > self.max_col {
                pos.1
            } else {
                self.max_col
            },
            ..self
        }
    }

    /// The coordinate on the side `dir` of `pos` is free and within range.
    pub open spec fn side_is_open(self, puzzle: Puzzle, pos: (i32, i32), dir: Direction) -> bool {
        !self.occupied.contains(slot_of(pos, dir)) && self.in_range(puzzle, slot_of(pos, dir))
    }

    /// Looks at the side `dir` of `pos`: an open side widens the bounding
    /// box and is added to `found`.
    pub open spec fn scan_side(
        self,
        puzzle: Puzzle,
        pos: (i32, i32),
        dir: Direction,
        found: Seq<(Direction, (i32, i32))>,
    ) -> (Kernel, Seq<(Direction, (i32, i32))>) {
        if self.side_is_open(puzzle, pos, dir) {
            (self.extended(slot_of(pos, dir)), found.push((dir, slot_of(pos, dir))))
        } else {
            (self, found)
        }
    }

    /// Looks at the four sides of `pos` in the order up, right, down, left,
    /// unless the kernel is full.
    pub open spec fn scan(self, puzzle: Puzzle, pos: (i32, i32)) -> (
        Kernel,
        Seq<(Direction, (i32, i32))>,
    ) {
        if self.is_full(puzzle) {
            (self, Seq::empty())
        } else {
            let a = self.scan_side(puzzle, pos, Direction::Up, Seq::empty());
            let b = a.0.scan_side(puzzle, pos, Direction::Right, a.1);
            let c = b.0.scan_side(puzzle, pos, Direction::Down, b.1);
            c.0.scan_side(puzzle, pos, Direction::Left, c.1)
        }
    }

    /// The kernel after a candidate was asked for the slot `slot` on the
    /// side `dir` of `anchor`.
    pub open spec fn proposed(self, puzzle: Puzzle, anchor: usize, dir: Direction, slot: (i32, i32)) -> Kernel {
        Kernel {
            frontier: with_proposal(self.frontier, puzzle, self.positions, anchor, dir, slot),
            ..self
        }
    }

    /// The kernel after candidates were asked for the first `upto` of the
    /// open sides `sides` of `anchor`.
    pub open spec fn proposed_all(
        self,
        puzzle: Puzzle,
        anchor: usize,
        sides: Seq<(Direction, (i32, i32))>,
        upto: nat,
    ) -> Kernel
        decreases upto,
    {
        if upto == 0 {
            self
        } else {
            self.proposed_all(puzzle, anchor, sides, (upto - 1) as nat).proposed(
                puzzle,
                anchor,
                sides[upto - 1].0,
                sides[upto - 1].1,
            )
        }
    }

    /// The kernel with `piece` recorded at `pos`, before its sides are
    /// looked at.
    pub open spec fn recorded(self, piece: usize, pos: (i32, i32)) -> Kernel {
        Kernel {
            positions: self.positions.update(piece as int, Some(pos)),
            order: self.order.push(piece),
            occupied: self.occupied.push(pos),
            ..self
        }
    }

    /// Placing `piece` at `pos`: it is recorded, its open sides widen the
    /// bounding box, and each gets a candidate.
    pub open spec fn placed(self, puzzle: Puzzle, piece: usize, pos: (i32, i32)) -> Kernel {
        let scanned = self.recorded(piece, pos).scan(puzzle, pos);
        scanned.0.proposed_all(puzzle, piece, scanned.1, scanned.1.len())
    }

    /// One turn of the main loop: the best candidate leaves the frontier;
    /// it is dropped if its coordinate is taken, replaced by a new proposal
    /// for the same slot if its piece is placed, and placed otherwise.
    pub open spec fn step(self, puzzle: Puzzle) -> Kernel {
        let at = best_index(self.frontier, self.frontier.len());
        let candidate = self.frontier[at];
        let rest = Kernel { frontier: self.frontier.remove(at), ..self };
        if self.occupied.contains(candidate.position) {
            rest
        } else if self.positions[candidate.piece as int] is Some {
            rest.proposed(puzzle, candidate.anchor, candidate.relation, candidate.position)
        } else {
            rest.placed(puzzle, candidate.piece, candidate.position)
        }
    }

    /// The kernel after `turns` turns, or fewer if the frontier runs empty
    /// before.
    pub open spec fn run(self, puzzle: Puzzle, turns: nat) -> Kernel
        decreases turns,
    {
        if turns == 0 || self.frontier.len() == 0 {
            self
        } else {
            self.step(puzzle).run(puzzle, (turns - 1) as nat)
        }
    }

    /// The cell `(r, c)` of the rendered grid: the piece placed at that
    /// offset from the corner of the bounding box.
    pub open spec fn cell(self, r: int, c: int) -> usize {
        owner_of(self.positions, self.min_row + r, self.min_col + c, self.positions.len())
    }

    /// `g` is the kernel rendered into a dense grid over its bounding box.
    pub open spec fn renders_to(self, g: Seq<Seq<usize>>) -> bool {
        &&& g.len() == self.max_row - self.min_row + 1
        &&& forall|r: int|
            0 <= r < g.len() ==> (#[trigger] g[r]).len() == self.max_col - self.min_col + 1
        &&& forall|r: int, c: int|
            0 <= r <= self.max_row - self.min_row && 0 <= c <= self.max_col - self.min_col
                ==> #[trigger] g[r][c] == self.cell(r, c)
    }

    /// Widening the bounding box to an in-range coordinate keeps the
    /// invariant, and puts the coordinate into the box.
    pub proof fn lemma_extended_wf(self, puzzle: Puzzle, pos: (i32, i32))
        requires
            self.wf(puzzle),
            self.in_range(puzzle, pos),
        ensures
            self.extended(pos).wf(puzzle),
            self.extended(pos).in_box(pos),
            forall|other: (i32, i32)| self.in_box(other) ==> self.extended(pos).in_box(other),
    {
        let wide = self.extended(pos);
        assert forall|k: int| 0 <= k < wide.occupied.len() implies wide.in_box(
            #[trigger] wide.occupied[k],
        ) by {
            assert(self.in_box(self.occupied[k]));
        }
        assert forall|i: int| 0 <= i < wide.frontier.len() implies {
            &&& wide.in_box((#[trigger] wide.frontier[i]).position)
            &&& wide.frontier[i].piece < puzzle.count()
            &&& wide.frontier[i].anchor < puzzle.count()
        } by {
            assert(self.in_box(self.frontier[i].position));
        }
    }

    /// Recording an unplaced piece at a free coordinate of the box keeps
    /// the invariant.
    pub proof fn lemma_recorded_wf(self, puzzle: Puzzle, piece: usize, pos: (i32, i32))
        requires
            self.wf(puzzle),
            piece < puzzle.count(),
            self.positions[piece as int] is None,
            !self.occupied.contains(pos),
            self.in_box(pos),
        ensures
            self.recorded(piece, pos).wf(puzzle),
    {
        let next = self.recorded(piece, pos);
        let n = self.order.len() as int;
        assert(!self.order.contains(piece)) by {
            if self.order.contains(piece) {
                let k = choose|k: int| 0 <= k < self.order.len() && self.order[k] == piece;
                assert(self.positions[self.order[k] as int] == Some(self.occupied[k]));
            }
        }
        assert forall|k: int| 0 <= k < next.order.len() implies (#[trigger] next.order[k])
            < puzzle.count() && next.positions[next.order[k] as int] == Some(next.occupied[k]) by {
            if k < n {
                assert(self.order[k] < puzzle.count());
                assert(self.order.contains(self.order[k]));
            }
        }
        assert(next.order.no_duplicates()) by {
            assert forall|i: int, j: int|
                0 <= i < next.order.len() && 0 <= j < next.order.len() && i != j implies next.order[i]
                != next.order[j] by {
                if i < n {
                    assert(self.order.contains(self.order[i]));
                }
                if j < n {
                    assert(self.order.contains(self.order[j]));
                }
            }
        }
        assert(next.occupied.no_duplicates()) by {
            assert forall|i: int, j: int|
                0 <= i < next.occupied.len() && 0 <= j < next.occupied.len() && i != j implies next.occupied[i]
                != next.occupied[j] by {
                if i < n {
                    assert(self.occupied.contains(self.occupied[i]));
                }
                if j < n {
                    assert(self.occupied.contains(self.occupied[j]));
                }
            }
        }
        assert forall|p: int|
            0 <= p < puzzle.count() && (#[trigger] next.positions[p]) is Some implies next.order.contains(
            p as usize,
        ) by {
            if p == piece {
                assert(next.order[n] == piece);
            } else {
                assert(self.positions[p] is Some);
                assert(self.order.contains(p as usize));
                let k = choose|k: int| 0 <= k < self.order.len() && self.order[k] == p as usize;
                assert(next.order[k] == p as usize);
            }
        }
        assert forall|k: int| 0 <= k < next.occupied.len() implies next.in_box(
            #[trigger] next.occupied[k],
        ) by {
            if k < n {
                assert(self.in_box(self.occupied[k]));
            }
        }
        assert forall|i: int| 0 <= i < next.frontier.len() implies {
            &&& next.in_box((#[trigger] next.frontier[i]).position)
            &&& next.frontier[i].piece < puzzle.count()
            &&& next.frontier[i].anchor < puzzle.count()
        } by {
            assert(self.in_box(self.frontier[i].position));
        }
    }

    /// Adding a candidate for a coordinate of the box, with known piece and
    /// anchor, keeps the invariant.
    pub proof fn lemma_push_wf(self, puzzle: Puzzle, candidate: Candidate)
        requires
            self.wf(puzzle),
            self.in_box(candidate.position),
            candidate.piece < puzzle.count(),
            candidate.anchor < puzzle.count(),
        ensures
            (Kernel { frontier: self.frontier.push(candidate), ..self }).wf(puzzle),
    {
        let next = Kernel { frontier: self.frontier.push(candidate), ..self };
        assert forall|k: int| 0 <= k < next.occupied.len() implies next.in_box(
            #[trigger] next.occupied[k],
        ) by {
            assert(self.in_box(self.occupied[k]));
        }
        assert forall|i: int| 0 <= i < next.frontier.len() implies {
            &&& next.in_box((#[trigger] next.frontier[i]).position)
            &&& next.frontier[i].piece < puzzle.count()
            &&& next.frontier[i].anchor < puzzle.count()
        } by {
            if i < self.frontier.len() {
                assert(self.in_box(self.frontier[i].position));
            }
        }
    }

    /// Taking a candidate out of the frontier keeps the invariant.
    pub proof fn lemma_remove_wf(self, puzzle: Puzzle, at: int)
        requires
            self.wf(puzzle),
            0 <= at < self.frontier.len(),
        ensures
            (Kernel { frontier: self.frontier.remove(at), ..self }).wf(puzzle),
    {
        let next = Kernel { frontier: self.frontier.remove(at), ..self };
        assert forall|k: int| 0 <= k < next.occupied.len() implies next.in_box(
            #[trigger] next.occupied[k],
        ) by {
            assert(self.in_box(self.occupied[k]));
        }
        assert forall|i: int| 0 <= i < next.frontier.len() implies {
            &&& next.in_box((#[trigger] next.frontier[i]).position)
            &&& next.frontier[i].piece < puzzle.count()
            &&& next.frontier[i].anchor < puzzle.count()
        } by {
            if i < at {
                assert(next.frontier[i] == self.frontier[i]);
                assert(self.in_box(self.frontier[i].position));
            } else {
                assert(next.frontier[i] == self.frontier[i + 1]);
                assert(self.in_box(self.frontier[i + 1].position));
            }
        }
    }

    /// Asking for a candidate changes the frontier only, by at most one
    /// candidate, whose piece is not placed.
    pub proof fn lemma_proposed(self, puzzle: Puzzle, anchor: usize, dir: Direction, slot: (i32, i32))
        ensures
            self.proposed(puzzle, anchor, dir, slot) == (Kernel {
                frontier: self.proposed(puzzle, anchor, dir, slot).frontier,
                ..self
            }),
            burden(self.proposed(puzzle, anchor, dir, slot).frontier, self.positions) <= burden(
                self.frontier,
                self.positions,
            ) + 1,
    {
        match puzzle.proposal(self.positions, anchor, dir) {
            Some((piece, priority)) => {
                let candidate = Candidate { piece, position: slot, anchor, relation: dir, priority };
                lemma_first_available(puzzle.index.ranked(anchor as int, dir), self.positions, 0);
                lemma_burden_push(self.frontier, self.positions, candidate);
            },
            None => {},
        }
    }

    /// Asking for several candidates changes the frontier only.
    pub proof fn lemma_proposed_all(
        self,
        puzzle: Puzzle,
        anchor: usize,
        sides: Seq<(Direction, (i32, i32))>,
        upto: nat,
    )
        ensures
            self.proposed_all(puzzle, anchor, sides, upto) == (Kernel {
                frontier: self.proposed_all(puzzle, anchor, sides, upto).frontier,
                ..self
            }),
        decreases upto,
    {
        if upto > 0 {
            self.lemma_proposed_all(puzzle, anchor, sides, (upto - 1) as nat);
            self.proposed_all(puzzle, anchor, sides, (upto - 1) as nat).lemma_proposed(
                puzzle,
                anchor,
                sides[upto - 1].0,
                sides[upto - 1].1,
            );
        }
    }

    /// Placing a piece records it and its coordinate; what else changes is
    /// the frontier and the bounding box.
    pub proof fn lemma_placed(self, puzzle: Puzzle, piece: usize, pos: (i32, i32))
        ensures
            self.placed(puzzle, piece, pos).positions == self.positions.update(
                piece as int,
                Some(pos),
            ),
            self.placed(puzzle, piece, pos).order == self.order.push(piece),
            self.placed(puzzle, piece, pos).occupied == self.occupied.push(pos),
    {
        let scanned = self.recorded(piece, pos).scan(puzzle, pos);
        scanned.0.lemma_proposed_all(puzzle, piece, scanned.1, scanned.1.len());
    }

    /// Each turn leaves fewer pieces to place, or as many and a lighter
    /// frontier.
    pub proof fn lemma_step_decreases(self, puzzle: Puzzle)
        requires
            self.wf(puzzle),
            self.frontier.len() > 0,
        ensures
            vacancies(self.step(puzzle).positions) < vacancies(self.positions) || (vacancies(
                self.step(puzzle).positions,
            ) == vacancies(self.positions) && burden(
                self.step(puzzle).frontier,
                self.step(puzzle).positions,
            ) < burden(self.frontier, self.positions)),
    {
        let at = best_index(self.frontier, self.frontier.len());
        lemma_best_index(self.frontier, self.frontier.len());
        let candidate = self.frontier[at];
        let rest = Kernel { frontier: self.frontier.remove(at), ..self };
        lemma_burden_remove(self.frontier, self.positions, at);
        if self.occupied.contains(candidate.position) {
        } else if self.positions[candidate.piece as int] is Some {
            rest.lemma_proposed(puzzle, candidate.anchor, candidate.relation, candidate.position);
        } else {
            rest.lemma_placed(puzzle, candidate.piece, candidate.position);
            lemma_vacancies_update(self.positions, candidate.piece as int, candidate.position);
        }
    }

    /// Running one more turn is taking one more step.
    pub proof fn lemma_run_step(self, puzzle: Puzzle, turns: nat)
        requires
            self.run(puzzle, turns).frontier.len() > 0,
        ensures
            self.run(puzzle, turns + 1) == self.run(puzzle, turns).step(puzzle),
        decreases turns,
    {
        if turns == 0 {
            assert(self.run(puzzle, 0) == self);
            assert(self.step(puzzle).run(puzzle, 0) == self.step(puzzle));
            assert(self.run(puzzle, 1) == self.step(puzzle).run(puzzle, 0));
        } else {
            assert(self.frontier.len() > 0);
            assert(self.run(puzzle, turns) == self.step(puzzle).run(puzzle, (turns - 1) as nat));
            self.step(puzzle).lemma_run_step(puzzle, (turns - 1) as nat);
            assert(self.run(puzzle, turns + 1) == self.step(puzzle).run(puzzle, turns));
        }
    }
}

impl Kernel {
    /// The number of the coordinate `pos` when the cells of the bounding
    /// box are counted row by row.
    pub open spec fn cell_number(self, pos: (i32, i32)) -> int {
        (pos.0 - self.min_row) * (self.max_col - self.min_col + 1) + (pos.1 - self.min_col)
    }

    /// The coordinate of the cell `(r, c)` of the bounding box.
    pub open spec fn cell_position(self, r: int, c: int) -> (i32, i32) {
        ((self.min_row + r) as i32, (self.min_col + c) as i32)
    }

    /// With as many pieces placed as there are, every piece is placed.
    pub proof fn lemma_every_piece_placed(self, puzzle: Puzzle)
        requires
            puzzle.wf(),
            self.wf(puzzle),
            self.is_full(puzzle),
        ensures
            forall|p: usize| p < puzzle.count() ==> #[trigger] self.order.contains(p),
    {
        let ids = Seq::new(self.order.len(), |k: int| self.order[k] as int);
        assert(ids.no_duplicates());
        lemma_pigeonhole(ids, puzzle.count());
        assert forall|p: usize| p < puzzle.count() implies #[trigger] self.order.contains(p) by {
            assert(ids.contains(p as int));
            let k = choose|k: int| 0 <= k < ids.len() && ids[k] == p as int;
            assert(self.order[k] == p);
        }
    }

    /// The piece placed `k`-th owns its coordinate in the rendering.
    pub proof fn lemma_position_owner(self, puzzle: Puzzle, k: int)
        requires
            puzzle.wf(),
            self.wf(puzzle),
            0 <= k < self.order.len(),
        ensures
            owner_of(
                self.positions,
                self.occupied[k].0 as int,
                self.occupied[k].1 as int,
                self.positions.len(),
            ) == self.order[k],
    {
        let piece = self.order[k];
        let pos = self.occupied[k];
        assert forall|q: int| 0 <= q < self.positions.len() && q != piece implies self.positions[q]
            != Some(pos) by {
            if self.positions[q] == Some(pos) {
                assert(self.order.contains(q as usize));
                let j = choose|j: int| 0 <= j < self.order.len() && self.order[j] == q as usize;
                assert(self.positions[self.order[j] as int] == Some(self.occupied[j]));
                assert(self.occupied[j] == self.occupied[k]);
            }
        }
        lemma_sole_owner(self.positions, piece as int, pos, self.positions.len());
    }

    /// With every piece placed, the bounding box is the target footprint
    /// and every coordinate in it is taken.
    pub proof fn lemma_box_is_filled(self, puzzle: Puzzle)
        requires
            puzzle.wf(),
            self.wf(puzzle),
            self.is_full(puzzle),
        ensures
            self.max_row - self.min_row + 1 == puzzle.rows(),
            self.max_col - self.min_col + 1 == puzzle.cols(),
            forall|r: int, c: int|
                0 <= r < puzzle.rows() && 0 <= c < puzzle.cols() ==> self.occupied.contains(
                    #[trigger] self.cell_position(r, c),
                ),
    {
        let h = self.max_row - self.min_row + 1;
        let w = self.max_col - self.min_col + 1;
        let rows = puzzle.rows() as int;
        let cols = puzzle.cols() as int;
        let n = puzzle.count();
        let numbers = Seq::new(self.occupied.len(), |k: int| self.cell_number(self.occupied[k]));
        assert(0 <= h * w) by (nonlinear_arith)
            requires
                h >= 1,
                w >= 1,
        ;
        assert forall|k: int| 0 <= k < numbers.len() implies 0 <= #[trigger] numbers[k] < h * w by {
            let pos = self.occupied[k];
            assert(self.in_box(pos));
            lemma_cell_number(pos.0 - self.min_row, pos.1 - self.min_col, w, h);
        }
        assert(numbers.no_duplicates()) by {
            assert forall|i: int, j: int|
                0 <= i < numbers.len() && 0 <= j < numbers.len() && i != j implies numbers[i]
                != numbers[j] by {
                let a = self.occupied[i];
                let b = self.occupied[j];
                assert(self.in_box(a) && self.in_box(b));
                lemma_cell_number(a.0 - self.min_row, a.1 - self.min_col, w, h);
                lemma_cell_number(b.0 - self.min_row, b.1 - self.min_col, w, h);
                if numbers[i] == numbers[j] {
                    assert(a.0 == b.0 && a.1 == b.1);
                    assert(a == b);
                }
            }
        }
        lemma_pigeonhole(numbers, (h * w) as nat);
        assert(h * w <= rows * cols && (h < rows ==> h * w < rows * cols) && (w < cols ==> h * w
            < rows * cols)) by (nonlinear_arith)
            requires
                1 <= h <= rows,
                1 <= w <= cols,
        ;
        assert(h == rows && w == cols);
        assert forall|r: int, c: int|
            0 <= r < puzzle.rows() && 0 <= c < puzzle.cols() implies self.occupied.contains(
            #[trigger] self.cell_position(r, c),
        ) by {
            lemma_cell_number(r, c, w, h);
            let x = r * w + c;
            assert(numbers.contains(x));
            let k = choose|k: int| 0 <= k < numbers.len() && numbers[k] == x;
            let pos = self.occupied[k];
            assert(self.in_box(pos));
            lemma_cell_number(pos.0 - self.min_row, pos.1 - self.min_col, w, h);
            assert(pos.0 - self.min_row == r && pos.1 - self.min_col == c);
            assert(pos == self.cell_position(r, c));
        }
    }

    /// A kernel that holds every piece renders to a complete arrangement.
    pub proof fn lemma_full_is_arrangement(self, puzzle: Puzzle, g: Seq<Seq<usize>>)
        requires
            puzzle.wf(),
            self.wf(puzzle),
            self.is_full(puzzle),
            self.renders_to(g),
        ensures
            is_arrangement(g, puzzle.rows(), puzzle.cols()),
    {
        let rows = puzzle.rows();
        let cols = puzzle.cols();
        self.lemma_box_is_filled(puzzle);
        self.lemma_every_piece_placed(puzzle);
        assert forall|r: int, c: int| 0 <= r < rows && 0 <= c < cols implies {
            &&& #[trigger] g[r][c] < rows * cols
            &&& self.positions[g[r][c] as int] == Some(
                ((self.min_row + r) as i32, (self.min_col + c) as i32),
            )
        } by {
            let pos = self.cell_position(r, c);
            assert(self.occupied.contains(pos));
            let k = choose|k: int| 0 <= k < self.occupied.len() && self.occupied[k] == pos;
            self.lemma_position_owner(puzzle, k);
            assert(g[r][c] == self.cell(r, c));
            assert(g[r][c] == self.order[k]);
        }
        assert forall|r1: int, c1: int, r2: int, c2: int|
            0 <= r1 < rows && 0 <= c1 < cols && 0 <= r2 < rows && 0 <= c2 < cols
                && #[trigger] g[r1][c1] == #[trigger] g[r2][c2] implies r1 == r2 && c1 == c2 by {
            assert(self.positions[g[r1][c1] as int] == Some(
                ((self.min_row + r1) as i32, (self.min_col + c1) as i32),
            ));
            assert(self.positions[g[r2][c2] as int] == Some(
                ((self.min_row + r2) as i32, (self.min_col + c2) as i32),
            ));
        }
        assert forall|id: usize| id < rows * cols implies #[trigger] occurs(g, id) by {
            assert(self.order.contains(id));
            let k = choose|k: int| 0 <= k < self.order.len() && self.order[k] == id;
            let pos = self.occupied[k];
            assert(self.in_box(pos));
            self.lemma_position_owner(puzzle, k);
            let r = pos.0 - self.min_row;
            let c = pos.1 - self.min_col;
            assert(g[r].len() == cols);
            assert(g[r][c] == self.cell(r, c));
            assert(g[r][c] == id);
        }
    }
}

/// The best candidate is one of those looked at, and none of them has a
/// smaller priority, nor an equal one at an earlier place.
pub proof fn lemma_best_index(frontier: Seq<Candidate>, upto: nat)
    requires
        1 <= upto <= frontier.len(),
    ensures
        0 <= best_index(frontier, upto) < upto,
        forall|i: int|
            0 <= i < upto ==> frontier[best_index(frontier, upto)].priority <= (
            #[trigger] frontier[i]).priority,
        forall|i: int|
            0 <= i < best_index(frontier, upto) ==> frontier[best_index(frontier, upto)].priority
                < (#[trigger] frontier[i]).priority,
    decreases upto,
{
    if upto > 1 {
        lemma_best_index(frontier, (upto - 1) as nat);
    }
}

} // verus!
