//! Why an assembly succeeds whenever the ranked lists are not cut off.

use vstd::prelude::*;
use crate::adjacency::{entry_for, is_ranking};
use crate::direction::Direction;
use vstd::set_lib::{lemma_int_range, lemma_len_subset, set_int_range};
use crate::grid::{
    is_arrangement, lemma_cell_of_number, neighbor_in, neighbor_spec, occurs, position_of,
};
use crate::kernel::{
    best_index, lemma_best_index, lemma_first_available, lemma_vacancies_update, slot_of,
    vacancies, Candidate, Kernel, Puzzle,
};

verus! {

/// Some candidate of `frontier` is a proposal for `slot`.
pub open spec fn has_candidate_at(frontier: Seq<Candidate>, slot: (i32, i32)) -> bool {
    exists|i: int| 0 <= i < frontier.len() && (#[trigger] frontier[i]).position == slot
}

impl Puzzle {
    /// No ranked list is cut off: each holds every other piece.
    pub open spec fn is_complete(self) -> bool {
        self.count() <= self.index.limit() + 1
    }

    /// What stands next to a piece in an arrangement is a piece.
    pub proof fn lemma_neighbor_is_piece(g: Seq<Seq<usize>>, rows: nat, cols: nat, id: usize, dir: Direction)
        requires
            rows >= 1,
            is_arrangement(g, rows, cols),
            id < rows * cols,
        ensures
            neighbor_in(g, id, dir) matches Some(next) ==> next < rows * cols,
    {
        assert(occurs(g, id));
        let (r, c) = position_of(g, id);
        assert(0 <= r < g.len() && 0 <= c < g[r].len() && g[r][c] == id);
        assert(g[r].len() == cols);
        assert(g[0].len() == cols);
        match neighbor_spec(g.len(), g[0].len(), r, c, dir) {
            Some((r2, c2)) => {
                assert(g[r2].len() == cols);
            },
            None => {},
        }
    }

    /// A proposal names a piece of the puzzle that is not placed.
    pub proof fn lemma_proposal_is_free(
        self,
        positions: Seq<Option<(i32, i32)>>,
        anchor: usize,
        dir: Direction,
    )
        requires
            self.wf(),
            anchor < self.count(),
        ensures
            self.proposal(positions, anchor, dir) matches Some((piece, priority)) ==> piece
                < self.count() && positions[piece as int] is None,
    {
        let list = self.index.ranked(anchor as int, dir);
        assert(is_ranking(list, self.index.rasters(), anchor as int, dir, self.index.limit()));
        Self::lemma_neighbor_is_piece(self.first, self.rows(), self.cols(), anchor, dir);
        lemma_first_available(list, positions, 0);
    }

    /// With complete lists, as long as a piece other than the anchor is
    /// not placed, there is a proposal.
    pub proof fn lemma_proposal_exists(
        self,
        positions: Seq<Option<(i32, i32)>>,
        anchor: usize,
        dir: Direction,
        free: usize,
    )
        requires
            self.wf(),
            self.is_complete(),
            anchor < self.count(),
            free < self.count(),
            free != anchor,
            positions[free as int] is None,
        ensures
            self.proposal(positions, anchor, dir) is Some,
    {
        let list = self.index.ranked(anchor as int, dir);
        assert(is_ranking(list, self.index.rasters(), anchor as int, dir, self.index.limit()));
        lemma_first_available(list, positions, 0);
        let entry = entry_for(self.index.rasters(), anchor as int, free, dir);
        assert(list.contains(entry));
        let i = choose|i: int| 0 <= i < list.len() && list[i] == entry;
        assert(list[i].1 == free);
    }
}

/// Among positions of which not all are taken, one is free.
pub proof fn lemma_vacancy_exists(positions: Seq<Option<(i32, i32)>>)
    requires
        vacancies(positions) > 0,
    ensures
        exists|p: int| 0 <= p < positions.len() && (#[trigger] positions[p]) is None,
    decreases positions.len(),
{
    if positions.len() > 0 {
        if positions.last() is None {
            assert(positions[positions.len() - 1] is None);
        } else {
            lemma_vacancy_exists(positions.drop_last());
            let p = choose|p: int|
                0 <= p < positions.drop_last().len() && (#[trigger] positions.drop_last()[p])
                    is None;
            assert(positions[p] is None);
        }
    }
}

/// Before the first piece is placed, all are left to place.
pub proof fn lemma_vacancies_of_empty(positions: Seq<Option<(i32, i32)>>)
    requires
        forall|p: int| 0 <= p < positions.len() ==> (#[trigger] positions[p]) is None,
    ensures
        vacancies(positions) == positions.len(),
    decreases positions.len(),
{
    if positions.len() > 0 {
        assert forall|p: int| 0 <= p < positions.drop_last().len() implies (
        #[trigger] positions.drop_last()[p]) is None by {
            assert(positions[p] is None);
        }
        lemma_vacancies_of_empty(positions.drop_last());
    }
}

impl Kernel {
    /// The slot on the side `dir` of `pos` is taken, or out of range, or a
    /// candidate stands ready for it.
    pub open spec fn side_covered(self, puzzle: Puzzle, pos: (i32, i32), dir: Direction) -> bool {
        let slot = slot_of(pos, dir);
        self.occupied.contains(slot) || !self.in_range(puzzle, slot) || has_candidate_at(
            self.frontier,
            slot,
        )
    }

    /// Every side of the first `upto` coordinates taken is covered.
    pub open spec fn covers(self, puzzle: Puzzle, upto: int) -> bool {
        forall|k: int, dir: Direction|
            0 <= k < upto ==> #[trigger] self.side_covered(puzzle, self.occupied[k], dir)
    }

    /// The anchor of every candidate is placed.
    pub open spec fn anchors_placed(self) -> bool {
        forall|i: int|
            0 <= i < self.frontier.len() ==> self.positions[(#[trigger] self.frontier[i]).anchor as int]
                is Some
    }

    /// As many pieces are left to place as the count of pieces says.
    pub open spec fn counted(self, puzzle: Puzzle) -> bool {
        vacancies(self.positions) + self.occupied.len() == puzzle.count()
    }

    /// What holds between the turns of an assembly, beyond the invariant:
    /// the root stands at the origin, and while pieces are left to place,
    /// no free slot within range next to a placed piece is forgotten.
    pub open spec fn sound(self, puzzle: Puzzle) -> bool {
        &&& self.wf(puzzle)
        &&& self.counted(puzzle)
        &&& self.anchors_placed()
        &&& self.occupied.len() > 0
        &&& self.occupied[0] == (0i32, 0i32)
        &&& !self.is_full(puzzle) ==> self.covers(puzzle, self.occupied.len() as int)
    }

    /// What asking for a candidate does to the frontier.
    pub proof fn lemma_proposed_effect(
        self,
        puzzle: Puzzle,
        anchor: usize,
        dir: Direction,
        slot: (i32, i32),
    )
        requires
            puzzle.wf(),
            self.wf(puzzle),
            anchor < puzzle.count(),
            self.in_box(slot),
        ensures
            self.proposed(puzzle, anchor, dir, slot).wf(puzzle),
            self.proposed(puzzle, anchor, dir, slot) == (Kernel {
                frontier: self.proposed(puzzle, anchor, dir, slot).frontier,
                ..self
            }),
            self.frontier.len() <= self.proposed(puzzle, anchor, dir, slot).frontier.len()
                <= self.frontier.len() + 1,
            forall|i: int|
                0 <= i < self.frontier.len() ==> #[trigger] self.proposed(
                    puzzle,
                    anchor,
                    dir,
                    slot,
                ).frontier[i] == self.frontier[i],
            self.proposed(puzzle, anchor, dir, slot).frontier.len() > self.frontier.len() ==> {
                let added = self.proposed(puzzle, anchor, dir, slot).frontier[self.frontier.len() as int];
                added.position == slot && added.anchor == anchor
            },
            puzzle.is_complete() && self.positions[anchor as int] is Some && vacancies(
                self.positions,
            ) > 0 ==> self.proposed(puzzle, anchor, dir, slot).frontier.len() == self.frontier.len()
                + 1,
    {
        puzzle.lemma_proposal_is_free(self.positions, anchor, dir);
        match puzzle.proposal(self.positions, anchor, dir) {
            Some((piece, priority)) => {
                let candidate = Candidate { piece, position: slot, anchor, relation: dir, priority };
                self.lemma_push_wf(puzzle, candidate);
            },
            None => {},
        }
        if puzzle.is_complete() && self.positions[anchor as int] is Some && vacancies(
            self.positions,
        ) > 0 {
            lemma_vacancy_exists(self.positions);
            let free = choose|p: int|
                0 <= p < self.positions.len() && (#[trigger] self.positions[p]) is None;
            puzzle.lemma_proposal_exists(self.positions, anchor, dir, free as usize);
        }
    }

    /// What asking for candidates for several slots does to the frontier.
    pub proof fn lemma_proposed_all_effect(
        self,
        puzzle: Puzzle,
        anchor: usize,
        sides: Seq<(Direction, (i32, i32))>,
        upto: nat,
    )
        requires
            puzzle.wf(),
            self.wf(puzzle),
            anchor < puzzle.count(),
            upto <= sides.len(),
            forall|j: int| 0 <= j < sides.len() ==> self.in_box((#[trigger] sides[j]).1),
        ensures
            self.proposed_all(puzzle, anchor, sides, upto).wf(puzzle),
            self.proposed_all(puzzle, anchor, sides, upto) == (Kernel {
                frontier: self.proposed_all(puzzle, anchor, sides, upto).frontier,
                ..self
            }),
            self.frontier.len() <= self.proposed_all(puzzle, anchor, sides, upto).frontier.len(),
            forall|i: int|
                0 <= i < self.frontier.len() ==> #[trigger] self.proposed_all(
                    puzzle,
                    anchor,
                    sides,
                    upto,
                ).frontier[i] == self.frontier[i],
            forall|i: int|
                self.frontier.len() <= i < self.proposed_all(
                    puzzle,
                    anchor,
                    sides,
                    upto,
                ).frontier.len() ==> (#[trigger] self.proposed_all(
                    puzzle,
                    anchor,
                    sides,
                    upto,
                ).frontier[i]).anchor == anchor,
            puzzle.is_complete() && self.positions[anchor as int] is Some && vacancies(
                self.positions,
            ) > 0 ==> forall|j: int|
                0 <= j < upto ==> has_candidate_at(
                    self.proposed_all(puzzle, anchor, sides, upto).frontier,
                    (#[trigger] sides[j]).1,
                ),
        decreases upto,
    {
        if upto > 0 {
            let before = self.proposed_all(puzzle, anchor, sides, (upto - 1) as nat);
            self.lemma_proposed_all_effect(puzzle, anchor, sides, (upto - 1) as nat);
            let side = sides[upto - 1];
            assert(self.in_box(side.1));
            before.lemma_proposed_effect(puzzle, anchor, side.0, side.1);
            let after = before.proposed(puzzle, anchor, side.0, side.1);
            assert(after == self.proposed_all(puzzle, anchor, sides, upto));
            assert forall|i: int| 0 <= i < self.frontier.len() implies #[trigger] after.frontier[i]
                == self.frontier[i] by {
                assert(after.frontier[i] == before.frontier[i]);
            }
            assert forall|i: int| self.frontier.len() <= i < after.frontier.len() implies (
            #[trigger] after.frontier[i]).anchor == anchor by {
                if i < before.frontier.len() {
                    assert(after.frontier[i] == before.frontier[i]);
                }
            }
            if puzzle.is_complete() && self.positions[anchor as int] is Some && vacancies(
                self.positions,
            ) > 0 {
                assert forall|j: int| 0 <= j < upto implies has_candidate_at(
                    after.frontier,
                    (#[trigger] sides[j]).1,
                ) by {
                    if j < upto - 1 {
                        assert(has_candidate_at(before.frontier, sides[j].1));
                        let i = choose|i: int|
                            0 <= i < before.frontier.len() && (#[trigger] before.frontier[i]).position
                                == sides[j].1;
                        assert(after.frontier[i] == before.frontier[i]);
                    } else {
                        assert(after.frontier[before.frontier.len() as int].position == side.1);
                    }
                }
            }
        }
    }
}

impl Kernel {
    /// `wider` differs from `self` at most by a wider bounding box.
    pub open spec fn widened_to(self, wider: Kernel) -> bool {
        &&& wider == (Kernel {
            min_row: wider.min_row,
            max_row: wider.max_row,
            min_col: wider.min_col,
            max_col: wider.max_col,
            ..self
        })
        &&& wider.min_row <= self.min_row
        &&& self.max_row <= wider.max_row
        &&& wider.min_col <= self.min_col
        &&& self.max_col <= wider.max_col
    }

    /// What looking at one side does.
    pub proof fn lemma_scan_side_effect(
        self,
        puzzle: Puzzle,
        pos: (i32, i32),
        dir: Direction,
        found: Seq<(Direction, (i32, i32))>,
    )
        requires
            puzzle.wf(),
            self.wf(puzzle),
            forall|j: int| 0 <= j < found.len() ==> self.in_box((#[trigger] found[j]).1),
        ensures
            ({
                let (wider, sides) = self.scan_side(puzzle, pos, dir, found);
                &&& wider.wf(puzzle)
                &&& self.widened_to(wider)
                &&& found.len() <= sides.len()
                &&& forall|j: int| 0 <= j < found.len() ==> #[trigger] sides[j] == found[j]
                &&& forall|j: int| 0 <= j < sides.len() ==> wider.in_box((#[trigger] sides[j]).1)
                &&& {
                    ||| self.occupied.contains(slot_of(pos, dir))
                    ||| !wider.in_range(puzzle, slot_of(pos, dir))
                    ||| sides.len() == found.len() + 1 && sides[found.len() as int].1 == slot_of(
                        pos,
                        dir,
                    )
                }
            }),
    {
        let slot = slot_of(pos, dir);
        let (wider, sides) = self.scan_side(puzzle, pos, dir, found);
        if self.side_is_open(puzzle, pos, dir) {
            self.lemma_extended_wf(puzzle, slot);
            assert forall|j: int| 0 <= j < sides.len() implies wider.in_box(
                (#[trigger] sides[j]).1,
            ) by {
                if j < found.len() {
                    assert(self.in_box(found[j].1));
                }
            }
        }
    }

    /// What looking at the four sides of a coordinate does.
    pub proof fn lemma_scan_effect(self, puzzle: Puzzle, pos: (i32, i32))
        requires
            puzzle.wf(),
            self.wf(puzzle),
        ensures
            ({
                let (wider, sides) = self.scan(puzzle, pos);
                &&& wider.wf(puzzle)
                &&& self.widened_to(wider)
                &&& forall|j: int| 0 <= j < sides.len() ==> wider.in_box((#[trigger] sides[j]).1)
                &&& !self.is_full(puzzle) ==> forall|dir: Direction|
                    {
                        ||| self.occupied.contains(#[trigger] slot_of(pos, dir))
                        ||| !wider.in_range(puzzle, slot_of(pos, dir))
                        ||| exists|j: int|
                            0 <= j < sides.len() && (#[trigger] sides[j]).1 == slot_of(pos, dir)
                    }
            }),
    {
        if !self.is_full(puzzle) {
            let none = Seq::<(Direction, (i32, i32))>::empty();
            let a = self.scan_side(puzzle, pos, Direction::Up, none);
            self.lemma_scan_side_effect(puzzle, pos, Direction::Up, none);
            let b = a.0.scan_side(puzzle, pos, Direction::Right, a.1);
            a.0.lemma_scan_side_effect(puzzle, pos, Direction::Right, a.1);
            let c = b.0.scan_side(puzzle, pos, Direction::Down, b.1);
            b.0.lemma_scan_side_effect(puzzle, pos, Direction::Down, b.1);
            let d = c.0.scan_side(puzzle, pos, Direction::Left, c.1);
            c.0.lemma_scan_side_effect(puzzle, pos, Direction::Left, c.1);
            let (wider, sides) = d;
            assert forall|dir: Direction|
                {
                    ||| self.occupied.contains(#[trigger] slot_of(pos, dir))
                    ||| !wider.in_range(puzzle, slot_of(pos, dir))
                    ||| exists|j: int|
                        0 <= j < sides.len() && (#[trigger] sides[j]).1 == slot_of(pos, dir)
                } by {
                let slot = slot_of(pos, dir);
                match dir {
                    Direction::Up => {
                        if a.1.len() == 1 && a.1[0].1 == slot {
                            assert(b.1[0] == a.1[0]);
                            assert(c.1[0] == b.1[0]);
                            assert(sides[0] == c.1[0]);
                        }
                    },
                    Direction::Right => {
                        let at = a.1.len() as int;
                        if b.1.len() == at + 1 && b.1[at].1 == slot {
                            assert(c.1[at] == b.1[at]);
                            assert(sides[at] == c.1[at]);
                        }
                    },
                    Direction::Down => {
                        let at = b.1.len() as int;
                        if c.1.len() == at + 1 && c.1[at].1 == slot {
                            assert(sides[at] == c.1[at]);
                        }
                    },
                    Direction::Left => {
                        let at = c.1.len() as int;
                        if sides.len() == at + 1 && sides[at].1 == slot {
                            assert(sides[at].1 == slot);
                        }
                    },
                }
            }
        }
    }
}

impl Kernel {
    /// Every side of the first `upto` coordinates taken is covered, or
    /// leads to `pos`.
    pub open spec fn covers_but(self, puzzle: Puzzle, pos: (i32, i32)) -> bool {
        forall|k: int, dir: Direction|
            0 <= k < self.occupied.len() ==> #[trigger] self.side_covered(
                puzzle,
                self.occupied[k],
                dir,
            ) || slot_of(self.occupied[k], dir) == pos
    }

    /// Placing a piece on a slot keeps the kernel sound.
    pub proof fn lemma_placed_sound(self, puzzle: Puzzle, piece: usize, pos: (i32, i32))
        requires
            puzzle.wf(),
            puzzle.is_complete(),
            self.wf(puzzle),
            self.counted(puzzle),
            self.anchors_placed(),
            piece < puzzle.count(),
            self.positions[piece as int] is None,
            !self.occupied.contains(pos),
            self.in_box(pos),
            self.occupied.len() > 0 ==> self.occupied[0] == (0i32, 0i32),
            self.occupied.len() == 0 ==> pos == (0i32, 0i32),
            self.covers_but(puzzle, pos),
        ensures
            self.placed(puzzle, piece, pos).sound(puzzle),
    {
        let rec = self.recorded(piece, pos);
        self.lemma_recorded_wf(puzzle, piece, pos);
        lemma_vacancies_update(self.positions, piece as int, pos);
        let (wider, sides) = rec.scan(puzzle, pos);
        rec.lemma_scan_effect(puzzle, pos);
        let fin = wider.proposed_all(puzzle, piece, sides, sides.len());
        wider.lemma_proposed_all_effect(puzzle, piece, sides, sides.len());
        assert(fin == self.placed(puzzle, piece, pos));
        assert(fin.positions == rec.positions);
        assert(fin.occupied == rec.occupied);
        assert(fin.anchors_placed()) by {
            assert forall|i: int| 0 <= i < fin.frontier.len() implies fin.positions[(
            #[trigger] fin.frontier[i]).anchor as int] is Some by {
                if i < self.frontier.len() {
                    assert(fin.frontier[i] == wider.frontier[i]);
                    assert(self.positions[self.frontier[i].anchor as int] is Some);
                }
            }
        }
        if !fin.is_full(puzzle) {
            assert(vacancies(wider.positions) > 0);
            assert(wider.positions[piece as int] is Some);
            let n = self.occupied.len() as int;
            assert forall|k: int, dir: Direction| 0 <= k < fin.occupied.len() implies #[trigger] fin.side_covered(
                puzzle,
                fin.occupied[k],
                dir,
            ) by {
                let slot = slot_of(fin.occupied[k], dir);
                if k < n {
                    assert(fin.occupied[k] == self.occupied[k]);
                    assert(self.side_covered(puzzle, self.occupied[k], dir) || slot == pos);
                    if slot == pos {
                        assert(fin.occupied[n] == pos);
                    } else if self.occupied.contains(slot) {
                        let j = choose|j: int| 0 <= j < self.occupied.len() && self.occupied[j] == slot;
                        assert(fin.occupied[j] == slot);
                    } else if has_candidate_at(self.frontier, slot) {
                        let i = choose|i: int|
                            0 <= i < self.frontier.len() && (#[trigger] self.frontier[i]).position
                                == slot;
                        assert(fin.frontier[i] == wider.frontier[i]);
                        assert(fin.frontier[i].position == slot);
                    }
                } else {
                    assert(fin.occupied[k] == pos);
                    assert(slot == slot_of(pos, dir));
                    if rec.occupied.contains(slot) {
                    } else if !wider.in_range(puzzle, slot) {
                    } else {
                        let j = choose|j: int|
                            0 <= j < sides.len() && (#[trigger] sides[j]).1 == slot_of(pos, dir);
                        assert(has_candidate_at(fin.frontier, sides[j].1));
                    }
                }
            }
        }
    }
}

/// A candidate for a slot stays in the frontier when a candidate for
/// another slot is taken out.
pub proof fn lemma_candidate_survives(frontier: Seq<Candidate>, at: int, slot: (i32, i32))
    requires
        0 <= at < frontier.len(),
        has_candidate_at(frontier, slot),
        frontier[at].position != slot,
    ensures
        has_candidate_at(frontier.remove(at), slot),
{
    let i = choose|i: int| 0 <= i < frontier.len() && (#[trigger] frontier[i]).position == slot;
    if i < at {
        assert(frontier.remove(at)[i] == frontier[i]);
    } else {
        assert(frontier.remove(at)[i - 1] == frontier[i]);
    }
}

impl Kernel {
    /// With complete lists, a turn keeps the kernel sound.
    pub proof fn lemma_step_sound(self, puzzle: Puzzle)
        requires
            puzzle.wf(),
            puzzle.is_complete(),
            self.sound(puzzle),
            self.frontier.len() > 0,
        ensures
            self.step(puzzle).sound(puzzle),
    {
        let at = best_index(self.frontier, self.frontier.len());
        lemma_best_index(self.frontier, self.frontier.len());
        let candidate = self.frontier[at];
        let pos = candidate.position;
        let rest = Kernel { frontier: self.frontier.remove(at), ..self };
        self.lemma_remove_wf(puzzle, at);
        assert(self.in_box(pos) && candidate.piece < puzzle.count() && candidate.anchor
            < puzzle.count());
        assert(self.positions[candidate.anchor as int] is Some);
        assert(rest.anchors_placed()) by {
            assert forall|i: int| 0 <= i < rest.frontier.len() implies rest.positions[(
            #[trigger] rest.frontier[i]).anchor as int] is Some by {
                if i < at {
                    assert(rest.frontier[i] == self.frontier[i]);
                } else {
                    assert(rest.frontier[i] == self.frontier[i + 1]);
                }
            }
        }
        if !self.is_full(puzzle) {
            assert(rest.covers_but(puzzle, pos)) by {
                assert forall|k: int, dir: Direction| 0 <= k < rest.occupied.len() implies #[trigger] rest.side_covered(
                    puzzle,
                    rest.occupied[k],
                    dir,
                ) || slot_of(rest.occupied[k], dir) == pos by {
                    let slot = slot_of(self.occupied[k], dir);
                    assert(self.side_covered(puzzle, self.occupied[k], dir));
                    if slot != pos && has_candidate_at(self.frontier, slot) {
                        lemma_candidate_survives(self.frontier, at, slot);
                    }
                }
            }
        }
        let next = self.step(puzzle);
        if self.occupied.contains(pos) {
            assert(next == rest);
            if !next.is_full(puzzle) {
                assert forall|k: int, dir: Direction| 0 <= k < next.occupied.len() implies #[trigger] next.side_covered(
                    puzzle,
                    next.occupied[k],
                    dir,
                ) by {
                    assert(rest.side_covered(puzzle, rest.occupied[k], dir) || slot_of(
                        rest.occupied[k],
                        dir,
                    ) == pos);
                }
            }
        } else if self.positions[candidate.piece as int] is Some {
            rest.lemma_proposed_effect(puzzle, candidate.anchor, candidate.relation, pos);
            assert(next == rest.proposed(puzzle, candidate.anchor, candidate.relation, pos));
            assert(next.anchors_placed()) by {
                assert forall|i: int| 0 <= i < next.frontier.len() implies next.positions[(
                #[trigger] next.frontier[i]).anchor as int] is Some by {
                    if i < rest.frontier.len() {
                        assert(next.frontier[i] == rest.frontier[i]);
                    }
                }
            }
            if !next.is_full(puzzle) {
                assert(vacancies(rest.positions) > 0);
                assert(next.frontier[rest.frontier.len() as int].position == pos);
                assert forall|k: int, dir: Direction| 0 <= k < next.occupied.len() implies #[trigger] next.side_covered(
                    puzzle,
                    next.occupied[k],
                    dir,
                ) by {
                    let slot = slot_of(rest.occupied[k], dir);
                    assert(rest.side_covered(puzzle, rest.occupied[k], dir) || slot == pos);
                    if slot != pos && has_candidate_at(rest.frontier, slot) {
                        let i = choose|i: int|
                            0 <= i < rest.frontier.len() && (#[trigger] rest.frontier[i]).position
                                == slot;
                        assert(next.frontier[i] == rest.frontier[i]);
                    }
                }
            }
        } else {
            lemma_vacancies_update(self.positions, candidate.piece as int, pos);
            assert(!self.is_full(puzzle));
            rest.lemma_placed_sound(puzzle, candidate.piece, pos);
        }
    }

    /// With complete lists, turn after turn keeps the kernel sound.
    pub proof fn lemma_run_sound(self, puzzle: Puzzle, turns: nat)
        requires
            puzzle.wf(),
            puzzle.is_complete(),
            self.sound(puzzle),
        ensures
            self.run(puzzle, turns).sound(puzzle),
        decreases turns,
    {
        if turns > 0 && self.frontier.len() > 0 {
            self.lemma_step_sound(puzzle);
            self.step(puzzle).lemma_run_sound(puzzle, (turns - 1) as nat);
        }
    }

    /// With complete lists, the kernel with only the root placed is sound.
    pub proof fn lemma_seed_sound(puzzle: Puzzle, root: usize)
        requires
            puzzle.wf(),
            puzzle.is_complete(),
            root < puzzle.count(),
        ensures
            Kernel::empty(puzzle.count()).placed(puzzle, root, (0, 0)).sound(puzzle),
    {
        let start = Kernel::empty(puzzle.count());
        puzzle.lemma_sides_bounded();
        lemma_vacancies_of_empty(start.positions);
        assert(start.wf(puzzle));
        start.lemma_placed_sound(puzzle, root, (0, 0));
    }
}

impl Kernel {
    /// Next to every coordinate taken, every slot within range is taken.
    pub open spec fn is_closed(self, puzzle: Puzzle) -> bool {
        forall|k: int, dir: Direction|
            0 <= k < self.occupied.len() ==> self.occupied.contains(
                #[trigger] slot_of(self.occupied[k], dir),
            ) || !self.in_range(puzzle, slot_of(self.occupied[k], dir))
    }

    /// In a closed kernel, the row of the root is taken as far as the
    /// bounding box goes.
    proof fn lemma_row_reached(self, puzzle: Puzzle, c: int)
        requires
            puzzle.wf(),
            self.wf(puzzle),
            self.occupied.len() > 0,
            self.occupied[0] == (0i32, 0i32),
            self.is_closed(puzzle),
            self.min_col <= c <= self.max_col,
        ensures
            self.occupied.contains((0i32, c as i32)),
        decreases
                (if c < 0 {
                    -c
                } else {
                    c
                }),
    {
        puzzle.lemma_sides_bounded();
        if c == 0 {
        } else {
            let before = if c > 0 {
                c - 1
            } else {
                c + 1
            };
            let dir = if c > 0 {
                Direction::Right
            } else {
                Direction::Left
            };
            self.lemma_row_reached(puzzle, before);
            let from = (0i32, before as i32);
            let k = choose|k: int| 0 <= k < self.occupied.len() && self.occupied[k] == from;
            assert(slot_of(self.occupied[k], dir) == (0i32, c as i32));
            assert(self.in_range(puzzle, (0i32, c as i32)));
        }
    }

    /// In a closed kernel, every coordinate of the bounding box is taken.
    proof fn lemma_cell_reached(self, puzzle: Puzzle, r: int, c: int)
        requires
            puzzle.wf(),
            self.wf(puzzle),
            self.occupied.len() > 0,
            self.occupied[0] == (0i32, 0i32),
            self.is_closed(puzzle),
            self.min_row <= r <= self.max_row,
            self.min_col <= c <= self.max_col,
        ensures
            self.occupied.contains((r as i32, c as i32)),
        decreases
                (if r < 0 {
                    -r
                } else {
                    r
                }),
    {
        puzzle.lemma_sides_bounded();
        if r == 0 {
            self.lemma_row_reached(puzzle, c);
        } else {
            let before = if r > 0 {
                r - 1
            } else {
                r + 1
            };
            let dir = if r > 0 {
                Direction::Down
            } else {
                Direction::Up
            };
            self.lemma_cell_reached(puzzle, before, c);
            let from = (before as i32, c as i32);
            let k = choose|k: int| 0 <= k < self.occupied.len() && self.occupied[k] == from;
            assert(slot_of(self.occupied[k], dir) == (r as i32, c as i32));
            assert(self.in_range(puzzle, (r as i32, c as i32)));
        }
    }

    /// A closed kernel has grown to the size of the target footprint.
    proof fn lemma_closed_box_is_whole(self, puzzle: Puzzle)
        requires
            puzzle.wf(),
            self.wf(puzzle),
            self.occupied.len() > 0,
            self.occupied[0] == (0i32, 0i32),
            self.is_closed(puzzle),
        ensures
            self.max_row - self.min_row + 1 == puzzle.rows(),
            self.max_col - self.min_col + 1 == puzzle.cols(),
    {
        puzzle.lemma_sides_bounded();
        if self.max_row - self.min_row + 1 < puzzle.rows() {
            self.lemma_cell_reached(puzzle, self.max_row as int, 0);
            let from = (self.max_row, 0i32);
            let k = choose|k: int| 0 <= k < self.occupied.len() && self.occupied[k] == from;
            let slot = slot_of(self.occupied[k], Direction::Down);
            assert(slot == ((self.max_row + 1) as i32, 0i32));
            assert(self.in_range(puzzle, slot));
            assert(self.occupied.contains(slot));
            let j = choose|j: int| 0 <= j < self.occupied.len() && self.occupied[j] == slot;
            assert(self.in_box(self.occupied[j]));
        }
        if self.max_col - self.min_col + 1 < puzzle.cols() {
            self.lemma_cell_reached(puzzle, 0, self.max_col as int);
            let from = (0i32, self.max_col);
            let k = choose|k: int| 0 <= k < self.occupied.len() && self.occupied[k] == from;
            let slot = slot_of(self.occupied[k], Direction::Right);
            assert(slot == (0i32, (self.max_col + 1) as i32));
            assert(self.in_range(puzzle, slot));
            assert(self.occupied.contains(slot));
            let j = choose|j: int| 0 <= j < self.occupied.len() && self.occupied[j] == slot;
            assert(self.in_box(self.occupied[j]));
        }
    }

    /// A closed kernel holds at least as many pieces as the target
    /// footprint has cells.
    proof fn lemma_closed_is_crowded(self, puzzle: Puzzle)
        requires
            puzzle.wf(),
            self.wf(puzzle),
            self.occupied.len() > 0,
            self.occupied[0] == (0i32, 0i32),
            self.is_closed(puzzle),
        ensures
            self.occupied.len() >= puzzle.count(),
    {
        puzzle.lemma_sides_bounded();
        self.lemma_closed_box_is_whole(puzzle);
        let rows = puzzle.rows() as int;
        let cols = puzzle.cols() as int;
        let n = puzzle.count() as int;
        let numbers = Seq::new(self.occupied.len(), |k: int| self.cell_number(self.occupied[k]));
        let range = set_int_range(0, n);
        lemma_int_range(0, n);
        vstd::seq_lib::seq_to_set_is_finite(numbers);
        assert(range.subset_of(numbers.to_set())) by {
            assert forall|x: int| range.contains(x) implies numbers.to_set().contains(x) by {
                lemma_cell_of_number(x, cols, rows);
                let r = x / cols;
                let c = x % cols;
                self.lemma_cell_reached(puzzle, self.min_row + r, self.min_col + c);
                let pos = ((self.min_row + r) as i32, (self.min_col + c) as i32);
                let k = choose|k: int| 0 <= k < self.occupied.len() && self.occupied[k] == pos;
                assert(numbers[k] == x);
                assert(numbers.contains(x));
            }
        }
        lemma_len_subset(range, numbers.to_set());
        numbers.lemma_cardinality_of_set();
    }

    /// A sound kernel whose frontier is empty holds every piece.
    pub proof fn lemma_rest_is_full(self, puzzle: Puzzle)
        requires
            puzzle.wf(),
            self.sound(puzzle),
            self.frontier.len() == 0,
        ensures
            self.is_full(puzzle),
    {
        if !self.is_full(puzzle) {
            assert(self.is_closed(puzzle)) by {
                assert forall|k: int, dir: Direction|
                    0 <= k < self.occupied.len() implies self.occupied.contains(
                    #[trigger] slot_of(self.occupied[k], dir),
                ) || !self.in_range(puzzle, slot_of(self.occupied[k], dir)) by {
                    assert(self.side_covered(puzzle, self.occupied[k], dir));
                }
            }
            self.lemma_closed_is_crowded(puzzle);
        }
    }
}

/// With complete ranked lists the assembly always succeeds: whatever the
/// root, when the frontier has run empty every piece is placed.
pub proof fn lemma_complete_lists_always_assemble(puzzle: Puzzle, root: usize, end: Kernel)
    requires
        puzzle.wf(),
        puzzle.is_complete(),
        root < puzzle.count(),
        crate::crossover::is_outcome(puzzle, root, end),
    ensures
        end.is_full(puzzle),
{
    let seed = Kernel::empty(puzzle.count()).placed(puzzle, root, (0, 0));
    let turns = choose|turns: nat| end == #[trigger] seed.run(puzzle, turns) && end.frontier.len() == 0;
    Kernel::lemma_seed_sound(puzzle, root);
    seed.lemma_run_sound(puzzle, turns);
    end.lemma_rest_is_full(puzzle);
}

} // verus!
