//! Kernel-growing crossover: assembles one child from two parents.

use vstd::prelude::*;
use crate::adjacency::AdjacencyData;
use crate::completeness::lemma_complete_lists_always_assemble;
use crate::direction::Direction;
use crate::grid::{build_matrix, grid_view, is_arrangement, neighbor_in, neighbor_piece, MAX_CELLS};
use crate::random::random_below;
use crate::kernel::{
    best_index, burden, first_available, lemma_best_index, slot_of, vacancies, Candidate, Kernel,
    Puzzle, BUDDY_PRIORITY, MUTUALLY_AGREED_PRIORITY, RANKED_PRIORITY,
};

verus! {

/// One assembly of a child from two parents.  An assembler is used once:
/// [`Crossover::generate_child`] starts from the state that
/// [`Crossover::new`] made.
pub struct Crossover<'a> {
    rows: usize,
    columns: usize,
    occupied_positions: Vec<(i32, i32)>,
    kernel: Vec<Option<(i32, i32)>>,
    candidates: Vec<Candidate>,
    parent1: &'a Vec<Vec<usize>>,
    parent2: &'a Vec<Vec<usize>>,
    adjacency: &'a AdjacencyData,
    max_row: i32,
    max_col: i32,
    min_row: i32,
    min_col: i32,
    order: Ghost<Seq<usize>>,
}

impl<'a> View for Crossover<'a> {
    type V = Kernel;

    closed spec fn view(&self) -> Kernel {
        Kernel {
            positions: self.kernel@,
            order: self.order@,
            occupied: self.occupied_positions@,
            frontier: self.candidates@,
            min_row: self.min_row,
            max_row: self.max_row,
            min_col: self.min_col,
            max_col: self.max_col,
        }
    }
}

impl<'a> Crossover<'a> {
    /// The parents and the index that this assembly works from.
    pub closed spec fn puzzle(&self) -> Puzzle {
        Puzzle {
            first: grid_view(self.parent1@),
            second: grid_view(self.parent2@),
            index: *self.adjacency,
        }
    }

    /// The invariant of the assembler.
    pub closed spec fn wf(&self) -> bool {
        &&& self.puzzle().wf()
        &&& self@.wf(self.puzzle())
        &&& self.rows == self.puzzle().rows()
        &&& self.columns == self.puzzle().cols()
    }

    /// A fresh assembler for the given parents.
    pub fn new(
        parent1: &'a Vec<Vec<usize>>,
        parent2: &'a Vec<Vec<usize>>,
        adjacency: &'a AdjacencyData,
    ) -> (assembler: Self)
        requires
            (Puzzle {
                first: grid_view(parent1@),
                second: grid_view(parent2@),
                index: *adjacency,
            }).wf(),
        ensures
            assembler.wf(),
            assembler.puzzle() == (Puzzle {
                first: grid_view(parent1@),
                second: grid_view(parent2@),
                index: *adjacency,
            }),
            assembler@ == Kernel::empty(assembler.puzzle().count()),
    {
        let ghost puzzle = Puzzle {
            first: grid_view(parent1@),
            second: grid_view(parent2@),
            index: *adjacency,
        };
        let rows = parent1.len();
        let columns = parent1[0].len();
        let count = adjacency.number_of_pieces();
        let mut kernel: Vec<Option<(i32, i32)>> = Vec::new();
        let mut p: usize = 0;
        while p < count
            invariant
                p <= count,
                kernel@.len() == p,
                forall|k: int| 0 <= k < p ==> (#[trigger] kernel@[k]) is None,
            decreases count - p,
        {
            kernel.push(None);
            p += 1;
        }
        let assembler = Crossover {
            rows,
            columns,
            occupied_positions: Vec::new(),
            kernel,
            candidates: Vec::new(),
            parent1,
            parent2,
            adjacency,
            max_row: 0,
            max_col: 0,
            min_row: 0,
            min_col: 0,
            order: Ghost(Seq::empty()),
        };
        proof {
            assert(assembler.puzzle() == puzzle);
            assert(assembler@.positions =~= Kernel::empty(puzzle.count()).positions);
            assert(assembler@.order =~= Kernel::empty(puzzle.count()).order);
            assert(assembler@.occupied =~= Kernel::empty(puzzle.count()).occupied);
            assert(assembler@.frontier =~= Kernel::empty(puzzle.count()).frontier);
        }
        assembler
    }

    /// Tells whether `piece` is not placed yet.
    fn piece_is_available(&self, piece: usize) -> (available: bool)
        requires
            self.wf(),
            piece < self.puzzle().count(),
        ensures
            available == (self@.positions[piece as int] is None),
    {
        self.kernel[piece].is_none()
    }

    /// Tells whether every piece is placed.
    fn kernel_is_full(&self) -> (full: bool)
        requires
            self.wf(),
        ensures
            full == self@.is_full(self.puzzle()),
    {
        proof {
            assert(self.rows * self.columns <= MAX_CELLS);
        }
        self.occupied_positions.len() == self.rows * self.columns
    }

    /// Tells whether `image` places `buddy2` on the side `relation` of
    /// `buddy1`.
    fn contains_best_buddies(
        &self,
        image: &Vec<Vec<usize>>,
        buddy1: usize,
        buddy2: usize,
        relation: Direction,
    ) -> (contained: bool)
        requires
            self.wf(),
            grid_view(image@) == self.puzzle().first || grid_view(image@) == self.puzzle().second,
            buddy1 < self.puzzle().count(),
        ensures
            contained == (neighbor_in(grid_view(image@), buddy1, relation) == Some(buddy2)),
    {
        proof {
            self.lemma_parent_shape(image);
        }
        match neighbor_piece(image, buddy1, relation) {
            Some(found) => found == buddy2,
            None => false,
        }
    }

    /// A parent has the shape that `neighbor_piece` asks for.
    proof fn lemma_parent_shape(&self, image: &Vec<Vec<usize>>)
        requires
            self.wf(),
            grid_view(image@) == self.puzzle().first || grid_view(image@) == self.puzzle().second,
        ensures
            image@.len() >= 1,
            image@.len() == self.puzzle().rows(),
            image@[0]@.len() == self.puzzle().cols(),
            crate::grid::is_arrangement(grid_view(image@), image@.len(), image@[0]@.len()),
    {
        let g = grid_view(image@);
        assert(g.len() == image@.len());
        assert(g[0] == image@[0]@);
        assert(self.puzzle().second[0].len() == self.puzzle().cols());
    }

    /// The piece that both parents place on the side `relation` of
    /// `piece`, if they agree.
    fn get_mutually_agreed_piece(&self, piece: usize, relation: Direction) -> (agreed: Option<usize>)
        requires
            self.wf(),
            piece < self.puzzle().count(),
        ensures
            agreed == self.puzzle().agreed(piece, relation),
            agreed matches Some(id) ==> id < self.puzzle().count(),
    {
        proof {
            self.lemma_parent_shape(self.parent1);
            self.lemma_parent_shape(self.parent2);
        }
        let piece_in_parent1 = match neighbor_piece(self.parent1, piece, relation) {
            Some(found) => found,
            None => {
                return None;
            },
        };
        let piece_in_parent2 = match neighbor_piece(self.parent2, piece, relation) {
            Some(found) => found,
            None => {
                return None;
            },
        };
        if piece_in_parent1 == piece_in_parent2 {
            return Some(piece_in_parent1);
        }
        None
    }

    /// The best buddy of `piece` on the side `relation`, provided that a
    /// parent places it there.
    fn get_best_buddy(&self, piece: usize, relation: Direction) -> (buddy: Option<usize>)
        requires
            self.wf(),
            piece < self.puzzle().count(),
        ensures
            buddy == self.puzzle().placed_buddy(piece, relation),
            buddy matches Some(id) ==> id < self.puzzle().count(),
    {
        let best_buddy = match self.adjacency.get_best_buddy_in_relation(piece, relation) {
            Some(found) => found,
            None => {
                return None;
            },
        };
        let parent1_contains_bb = self.contains_best_buddies(
            self.parent1,
            piece,
            best_buddy,
            relation,
        );
        if parent1_contains_bb {
            return Some(best_buddy);
        }
        let parent2_contains_bb = self.contains_best_buddies(
            self.parent2,
            piece,
            best_buddy,
            relation,
        );
        if parent2_contains_bb {
            return Some(best_buddy);
        }
        None
    }

    /// Tells whether `position` is taken.
    fn is_occupied(&self, position: (i32, i32)) -> (taken: bool)
        ensures
            taken == self@.occupied.contains(position),
    {
        let mut k: usize = 0;
        while k < self.occupied_positions.len()
            invariant
                k <= self.occupied_positions@.len(),
                forall|i: int| 0 <= i < k ==> self.occupied_positions@[i] != position,
            decreases self.occupied_positions@.len() - k,
        {
            let taken = self.occupied_positions[k];
            if taken.0 == position.0 && taken.1 == position.1 {
                return true;
            }
            k += 1;
        }
        false
    }

    /// Tells whether taking `row` keeps the kernel within the target rows.
    fn is_row_in_range(&self, row: i32) -> (fits: bool)
        requires
            self.wf(),
        ensures
            fits == self@.row_in_range(self.puzzle(), row),
    {
        let low = if row < self.min_row {
            row
        } else {
            self.min_row
        };
        let high = if row > self.max_row {
            row
        } else {
            self.max_row
        };
        proof {
            self.puzzle().lemma_sides_bounded();
        }
        let current_rows = high as i64 - low as i64;
        current_rows < self.rows as i64
    }

    /// Tells whether taking `column` keeps the kernel within the target
    /// columns.
    fn is_column_in_range(&self, column: i32) -> (fits: bool)
        requires
            self.wf(),
        ensures
            fits == self@.col_in_range(self.puzzle(), column),
    {
        let low = if column < self.min_col {
            column
        } else {
            self.min_col
        };
        let high = if column > self.max_col {
            column
        } else {
            self.max_col
        };
        proof {
            self.puzzle().lemma_sides_bounded();
        }
        let current_columns = high as i64 - low as i64;
        current_columns < self.columns as i64
    }

    /// Tells whether taking `row_and_column` keeps the kernel within the
    /// target footprint.
    fn is_in_range(&self, row_and_column: (i32, i32)) -> (fits: bool)
        requires
            self.wf(),
        ensures
            fits == self@.in_range(self.puzzle(), row_and_column),
    {
        let (row, column) = row_and_column;
        self.is_row_in_range(row) && self.is_column_in_range(column)
    }

    /// Widens the bounding box to hold `row_and_column`.
    fn update_kernel_boundaries(&mut self, row_and_column: (i32, i32))
        requires
            old(self).wf(),
            old(self)@.in_range(old(self).puzzle(), row_and_column),
        ensures
            final(self).wf(),
            final(self).puzzle() == old(self).puzzle(),
            final(self)@ == old(self)@.extended(row_and_column),
    {
        let (row, column) = row_and_column;
        if row < self.min_row {
            self.min_row = row;
        }
        if row > self.max_row {
            self.max_row = row;
        }
        if column < self.min_col {
            self.min_col = column;
        }
        if column > self.max_col {
            self.max_col = column;
        }
        proof {
            old(self)@.lemma_extended_wf(old(self).puzzle(), row_and_column);
        }
    }

    /// Puts a candidate into the frontier.
    fn push_candidate(&mut self, candidate: Candidate)
        requires
            old(self).wf(),
            old(self)@.in_box(candidate.position),
            candidate.piece < old(self).puzzle().count(),
            candidate.anchor < old(self).puzzle().count(),
        ensures
            final(self).wf(),
            final(self).puzzle() == old(self).puzzle(),
            final(self)@ == (Kernel {
                frontier: old(self)@.frontier.push(candidate),
                ..old(self)@
            }),
    {
        proof {
            old(self)@.lemma_push_wf(old(self).puzzle(), candidate);
        }
        self.candidates.push(candidate);
    }

    /// Asks for a candidate for `position`, the slot on the side
    /// `relation` of the placed piece `piece`: the mutually agreed piece,
    /// else the placed best buddy, else the best ranked neighbour, each
    /// only if it is not placed yet.  Where none is left, nothing is added.
    fn add_candidate(&mut self, piece: usize, relation: Direction, position: (i32, i32))
        requires
            old(self).wf(),
            piece < old(self).puzzle().count(),
            old(self)@.in_box(position),
        ensures
            final(self).wf(),
            final(self).puzzle() == old(self).puzzle(),
            final(self)@ == old(self)@.proposed(old(self).puzzle(), piece, relation, position),
    {
        let ghost puzzle = self.puzzle();
        let ghost positions = self@.positions;
        let mutually_agreed = self.get_mutually_agreed_piece(piece, relation);
        if let Some(agreed) = mutually_agreed {
            if self.piece_is_available(agreed) {
                let candidate = Candidate {
                    piece: agreed,
                    position,
                    anchor: piece,
                    relation,
                    priority: MUTUALLY_AGREED_PRIORITY,
                };
                self.push_candidate(candidate);
                return ;
            }
        }
        let best_buddy = self.get_best_buddy(piece, relation);
        if let Some(buddy) = best_buddy {
            if self.piece_is_available(buddy) {
                let candidate = Candidate {
                    piece: buddy,
                    position,
                    anchor: piece,
                    relation,
                    priority: BUDDY_PRIORITY,
                };
                self.push_candidate(candidate);
                return ;
            }
        }
        let adjacency: &'a AdjacencyData = self.adjacency;
        let most_compatible = adjacency.get_most_compatible(piece, relation);
        if let Some(i) = self.first_unplaced(most_compatible) {
            let (dissimilarity, compatible_piece) = most_compatible[i];
            let candidate = Candidate {
                piece: compatible_piece,
                position,
                anchor: piece,
                relation,
                priority: dissimilarity + RANKED_PRIORITY,
            };
            self.push_candidate(candidate);
        }
    }

    /// The place of the first entry of `list` whose piece is not placed.
    fn first_unplaced(&self, list: &Vec<(u64, usize)>) -> (found: Option<usize>)
        requires
            self.wf(),
            forall|i: int|
                0 <= i < list@.len() ==> (#[trigger] list@[i]).1 < self.puzzle().count(),
        ensures
            match first_available(list@, self@.positions, 0) {
                Some(i) => found == Some(i as usize) && i < list@.len(),
                None => found is None,
            },
    {
        let mut i: usize = 0;
        while i < list.len()
            invariant
                i <= list@.len(),
                self.wf(),
                forall|k: int|
                    0 <= k < list@.len() ==> (#[trigger] list@[k]).1 < self.puzzle().count(),
                first_available(list@, self@.positions, 0) == first_available(
                    list@,
                    self@.positions,
                    i as nat,
                ),
            decreases list@.len() - i,
        {
            assert(list@[i as int].1 < self.puzzle().count());
            if self.piece_is_available(list[i].1) {
                return Some(i);
            }
            i += 1;
        }
        None
    }

    /// The coordinate next to `position` on the side `relation`.
    fn slot(position: (i32, i32), relation: Direction) -> (next: (i32, i32))
        requires
            -(MAX_CELLS as int) <= position.0 <= MAX_CELLS,
            -(MAX_CELLS as int) <= position.1 <= MAX_CELLS,
        ensures
            next == slot_of(position, relation),
    {
        let (row, column) = position;
        match relation {
            Direction::Up => (row - 1, column),
            Direction::Right => (row, column + 1),
            Direction::Down => (row + 1, column),
            Direction::Left => (row, column - 1),
        }
    }

    /// Looks at the side `relation` of `position`: where the slot there is
    /// free and within range, the bounding box is widened to hold it and
    /// the slot is added to `boundaries`.
    fn look_at_side(
        &mut self,
        position: (i32, i32),
        relation: Direction,
        boundaries: &mut Vec<(Direction, (i32, i32))>,
    )
        requires
            old(self).wf(),
            old(self)@.in_box(position),
            forall|k: int|
                0 <= k < old(boundaries)@.len() ==> old(self)@.in_box(
                    (#[trigger] old(boundaries)@[k]).1,
                ),
        ensures
            final(self).wf(),
            final(self).puzzle() == old(self).puzzle(),
            (final(self)@, final(boundaries)@) == old(self)@.scan_side(
                old(self).puzzle(),
                position,
                relation,
                old(boundaries)@,
            ),
            final(self)@.in_box(position),
            forall|k: int|
                0 <= k < final(boundaries)@.len() ==> final(self)@.in_box(
                    (#[trigger] final(boundaries)@[k]).1,
                ),
    {
        proof {
            self.puzzle().lemma_sides_bounded();
        }
        let next = Self::slot(position, relation);
        if !self.is_occupied(next) && self.is_in_range(next) {
            proof {
                self@.lemma_extended_wf(self.puzzle(), next);
            }
            self.update_kernel_boundaries(next);
            boundaries.push((relation, next));
        }
    }

    /// Finds the free slots around `position` that are within range, in
    /// the order up, right, down, left, and widens the bounding box to hold
    /// them.  Finds none when the kernel is full.
    fn get_newly_available_boundaries(&mut self, position: (i32, i32)) -> (boundaries: Vec<
        (Direction, (i32, i32)),
    >)
        requires
            old(self).wf(),
            old(self)@.in_box(position),
        ensures
            final(self).wf(),
            final(self).puzzle() == old(self).puzzle(),
            (final(self)@, boundaries@) == old(self)@.scan(old(self).puzzle(), position),
            forall|k: int|
                0 <= k < boundaries@.len() ==> final(self)@.in_box((#[trigger] boundaries@[k]).1),
    {
        let mut boundaries: Vec<(Direction, (i32, i32))> = Vec::new();
        if !self.kernel_is_full() {
            self.look_at_side(position, Direction::Up, &mut boundaries);
            self.look_at_side(position, Direction::Right, &mut boundaries);
            self.look_at_side(position, Direction::Down, &mut boundaries);
            self.look_at_side(position, Direction::Left, &mut boundaries);
        }
        boundaries
    }

    /// Asks for a candidate for every free slot around the placed piece.
    fn add_candidates(&mut self, piece: usize, position: (i32, i32))
        requires
            old(self).wf(),
            piece < old(self).puzzle().count(),
            old(self)@.in_box(position),
        ensures
            final(self).wf(),
            final(self).puzzle() == old(self).puzzle(),
            final(self)@ == ({
                let scanned = old(self)@.scan(old(self).puzzle(), position);
                scanned.0.proposed_all(old(self).puzzle(), piece, scanned.1, scanned.1.len())
            }),
    {
        let ghost puzzle = self.puzzle();
        let new_boundaries = self.get_newly_available_boundaries(position);
        let ghost scanned = self@;
        let mut k: usize = 0;
        while k < new_boundaries.len()
            invariant
                k <= new_boundaries@.len(),
                self.wf(),
                self.puzzle() == puzzle,
                piece < puzzle.count(),
                self@ == scanned.proposed_all(puzzle, piece, new_boundaries@, k as nat),
                forall|i: int|
                    0 <= i < new_boundaries@.len() ==> self@.in_box(
                        (#[trigger] new_boundaries@[i]).1,
                    ),
            decreases new_boundaries@.len() - k,
        {
            let (relation, boundary_position) = new_boundaries[k];
            assert(self@.in_box(new_boundaries@[k as int].1));
            self.add_candidate(piece, relation, boundary_position);
            k += 1;
        }
    }

    /// Places `piece` at `position`: records it, marks the coordinate
    /// taken, and asks for candidates for the free slots around it.
    fn add_to_kernel(&mut self, piece: usize, position: (i32, i32))
        requires
            old(self).wf(),
            piece < old(self).puzzle().count(),
            old(self)@.positions[piece as int] is None,
            !old(self)@.occupied.contains(position),
            old(self)@.in_box(position),
        ensures
            final(self).wf(),
            final(self).puzzle() == old(self).puzzle(),
            final(self)@ == old(self)@.placed(old(self).puzzle(), piece, position),
    {
        proof {
            old(self)@.lemma_recorded_wf(old(self).puzzle(), piece, position);
        }
        self.kernel[piece] = Some(position);
        self.occupied_positions.push(position);
        self.order = Ghost(self.order@.push(piece));
        assert(self@ == old(self)@.recorded(piece, position));
        self.add_candidates(piece, position);
    }

    /// Takes the candidate to try next out of the frontier: the first of
    /// those with the smallest priority.
    fn pop_best(&mut self) -> (candidate: Candidate)
        requires
            old(self).wf(),
            old(self)@.frontier.len() > 0,
        ensures
            final(self).wf(),
            final(self).puzzle() == old(self).puzzle(),
            candidate == old(self)@.frontier[best_index(
                old(self)@.frontier,
                old(self)@.frontier.len(),
            )],
            final(self)@ == (Kernel {
                frontier: old(self)@.frontier.remove(
                    best_index(old(self)@.frontier, old(self)@.frontier.len()),
                ),
                ..old(self)@
            }),
            candidate.piece < old(self).puzzle().count(),
            candidate.anchor < old(self).puzzle().count(),
            old(self)@.in_box(candidate.position),
    {
        let mut best: usize = 0;
        let mut i: usize = 1;
        while i < self.candidates.len()
            invariant
                1 <= i <= self.candidates@.len(),
                best == best_index(self.candidates@, i as nat),
                best < i,
            decreases self.candidates@.len() - i,
        {
            proof {
                lemma_best_index(self.candidates@, (i + 1) as nat);
            }
            if self.candidates[i].priority < self.candidates[best].priority {
                best = i;
            }
            i += 1;
        }
        proof {
            old(self)@.lemma_remove_wf(old(self).puzzle(), best as int);
            assert(old(self)@.in_box(old(self)@.frontier[best as int].position));
        }
        self.candidates.remove(best)
    }

    /// One turn of the assembly: the best candidate is dropped if its
    /// coordinate is taken, replaced if its piece is placed, and placed
    /// otherwise.
    fn advance(&mut self)
        requires
            old(self).wf(),
            old(self)@.frontier.len() > 0,
        ensures
            final(self).wf(),
            final(self).puzzle() == old(self).puzzle(),
            final(self)@ == old(self)@.step(old(self).puzzle()),
    {
        let candidate = self.pop_best();
        if self.is_occupied(candidate.position) {
            return ;
        }
        if !self.piece_is_available(candidate.piece) {
            self.add_candidate(candidate.anchor, candidate.relation, candidate.position);
            return ;
        }
        self.add_to_kernel(candidate.piece, candidate.position);
    }

    /// Grows the kernel from `root` until the frontier is empty.
    fn grow(&mut self, root: usize)
        requires
            old(self).wf(),
            old(self)@ == Kernel::empty(old(self).puzzle().count()),
            root < old(self).puzzle().count(),
        ensures
            final(self).wf(),
            final(self).puzzle() == old(self).puzzle(),
            is_outcome(old(self).puzzle(), root, final(self)@),
    {
        let ghost puzzle = self.puzzle();
        let ghost seed = Kernel::empty(puzzle.count()).placed(puzzle, root, (0, 0));
        assert(!self@.occupied.contains((0i32, 0i32)));
        self.add_to_kernel(root, (0, 0));
        let ghost turns: nat = 0;
        while self.candidates.len() != 0
            invariant
                self.wf(),
                self.puzzle() == puzzle,
                self@ == seed.run(puzzle, turns),
            decreases vacancies(self@.positions), burden(self@.frontier, self@.positions),
        {
            proof {
                self@.lemma_step_decreases(puzzle);
                seed.lemma_run_step(puzzle, turns);
                turns = turns + 1;
            }
            self.advance();
        }
    }

    /// Picks the piece in a random cell of the first parent.
    fn generate_root_piece(&self) -> (root: usize)
        requires
            self.wf(),
        ensures
            root < self.puzzle().count(),
    {
        proof {
            self.lemma_parent_shape(self.parent1);
            self.puzzle().lemma_sides_bounded();
        }
        let random_row = random_below(self.rows as u128) as usize;
        let random_col = random_below(self.columns as u128) as usize;
        let ghost g = grid_view(self.parent1@);
        assert(g[random_row as int].len() == self.columns);
        assert(g[random_row as int][random_col as int] < self.puzzle().count());
        self.parent1[random_row][random_col]
    }

    /// Assembles a child around the piece `root`.
    ///
    /// The root goes to the relative coordinate `(0, 0)`; then candidate
    /// after candidate is tried, best first, until none is left.  The
    /// result is the kernel rendered over its bounding box if every piece
    /// was placed, and `None` if not.
    pub fn generate_child_from(&mut self, root: usize) -> (child: Option<Vec<Vec<usize>>>)
        requires
            old(self).wf(),
            old(self)@ == Kernel::empty(old(self).puzzle().count()),
            root < old(self).puzzle().count(),
        ensures
            final(self).puzzle() == old(self).puzzle(),
            is_outcome(old(self).puzzle(), root, final(self)@),
            final(self)@.wf(old(self).puzzle()),
            final(self)@.occupied.no_duplicates(),
            child is Some <==> final(self)@.is_full(old(self).puzzle()),
            child matches Some(g) ==> final(self)@.renders_to(grid_view(g@)) && is_arrangement(
                grid_view(g@),
                old(self).puzzle().rows(),
                old(self).puzzle().cols(),
            ),
            old(self).puzzle().is_complete() ==> child is Some,
    {
        self.grow(root);
        proof {
            if self.puzzle().is_complete() {
                lemma_complete_lists_always_assemble(self.puzzle(), root, self@);
            }
        }
        if !self.kernel_is_full() {
            return None;
        }
        proof {
            self.puzzle().lemma_sides_bounded();
        }
        let matrix = build_matrix(&self.kernel, self.min_col, self.max_col, self.min_row, self.max_row);
        proof {
            let g = grid_view(matrix@);
            assert(self@.renders_to(g)) by {
                assert forall|r: int, c: int|
                    0 <= r <= self@.max_row - self@.min_row && 0 <= c <= self@.max_col
                        - self@.min_col implies #[trigger] g[r][c] == self@.cell(r, c) by {
                    assert(g[r][c] == matrix@[r]@[c]);
                }
            }
            self@.lemma_full_is_arrangement(self.puzzle(), g);
        }
        Some(matrix)
    }

    /// Assembles a child around a piece picked at random from the first
    /// parent.  Returns `None` when the assembly came to rest before every
    /// piece was placed; a caller then tries again with a fresh assembler.
    pub fn generate_child(&mut self) -> (child: Option<Vec<Vec<usize>>>)
        requires
            old(self).wf(),
            old(self)@ == Kernel::empty(old(self).puzzle().count()),
        ensures
            final(self).puzzle() == old(self).puzzle(),
            exists|root: usize|
                root < old(self).puzzle().count() && #[trigger] is_outcome(
                    old(self).puzzle(),
                    root,
                    final(self)@,
                ),
            final(self)@.wf(old(self).puzzle()),
            final(self)@.occupied.no_duplicates(),
            child is Some <==> final(self)@.is_full(old(self).puzzle()),
            child matches Some(g) ==> final(self)@.renders_to(grid_view(g@)) && is_arrangement(
                grid_view(g@),
                old(self).puzzle().rows(),
                old(self).puzzle().cols(),
            ),
            old(self).puzzle().is_complete() ==> child is Some,
    {
        let root_piece = self.generate_root_piece();
        self.generate_child_from(root_piece)
    }
}

/// `end` is the state in which the assembly from `root` comes to rest: the
/// kernel reached from the placed root by turn after turn, at the first
/// turn at which the frontier is empty.
pub open spec fn is_outcome(puzzle: Puzzle, root: usize, end: Kernel) -> bool {
    exists|turns: nat|
        end == #[trigger] Kernel::empty(puzzle.count()).placed(puzzle, root, (0, 0)).run(
            puzzle,
            turns,
        ) && end.frontier.len() == 0
}

/// `g` is a child of the parents of `puzzle`: the rendering of a kernel
/// that came to rest with every piece placed, grown from some root.
pub open spec fn is_child_of(puzzle: Puzzle, g: Seq<Seq<usize>>) -> bool {
    exists|root: usize, end: Kernel|
        root < puzzle.count() && #[trigger] is_outcome(puzzle, root, end) && end.is_full(puzzle)
            && end.renders_to(g)
}

/// From some root, the assembly for `puzzle` comes to rest before every
/// piece is placed.
pub open spec fn can_fail(puzzle: Puzzle) -> bool {
    exists|root: usize, end: Kernel|
        root < puzzle.count() && #[trigger] is_outcome(puzzle, root, end) && !end.is_full(puzzle)
}

/// Assembles a child of the two parents, with a fresh assembler and a new
/// random root for each attempt, and gives up after `max_attempts` failed
/// attempts.
pub fn breed(
    parent1: &Vec<Vec<usize>>,
    parent2: &Vec<Vec<usize>>,
    adjacency: &AdjacencyData,
    max_attempts: usize,
) -> (child: Option<Vec<Vec<usize>>>)
    requires
        (Puzzle { first: grid_view(parent1@), second: grid_view(parent2@), index: *adjacency }).wf(),
    ensures
        child matches Some(g) ==> {
            let puzzle = Puzzle {
                first: grid_view(parent1@),
                second: grid_view(parent2@),
                index: *adjacency,
            };
            &&& is_child_of(puzzle, grid_view(g@))
            &&& is_arrangement(grid_view(g@), puzzle.rows(), puzzle.cols())
        },
        child is None ==> max_attempts == 0 || can_fail(
            Puzzle { first: grid_view(parent1@), second: grid_view(parent2@), index: *adjacency },
        ),
        max_attempts > 0 && adjacency.piece_count() <= adjacency.limit() + 1 ==> child is Some,
        max_attempts == 0 ==> child is None,
{
    let ghost puzzle = Puzzle {
        first: grid_view(parent1@),
        second: grid_view(parent2@),
        index: *adjacency,
    };
    let mut attempt: usize = 0;
    while attempt < max_attempts
        invariant
            attempt <= max_attempts,
            puzzle == (Puzzle {
                first: grid_view(parent1@),
                second: grid_view(parent2@),
                index: *adjacency,
            }),
            puzzle.wf(),
            attempt > 0 ==> can_fail(puzzle),
            attempt > 0 ==> !puzzle.is_complete(),
        decreases max_attempts - attempt,
    {
        let mut crossover = Crossover::new(parent1, parent2, adjacency);
        let child = crossover.generate_child();
        if child.is_some() {
            return child;
        }
        attempt += 1;
    }
    None
}

} // verus!
