//! The compatibility index: for every piece and side, the other pieces
//! ranked by how well they fit there, and the best-buddy relation.

use vstd::prelude::*;
use crate::direction::Direction;
use crate::dissimilarity::{calculate_dissimilarity, dissimilarity_spec, MAX_SCORE};
use crate::piece::{is_piece_set, is_raster_set, rasters, Piece, Pixel};
use crate::ranking::{insert_ranked, is_ranked, ranks_before};

verus! {

/// How many neighbours a ranked list keeps unless told otherwise.
pub const DEFAULT_LIMIT: usize = 100;

/// The entry that piece `q` has in the ranked list of piece `p` on side
/// `dir`: its score there, and its id.
pub open spec fn entry_for(rasters: Seq<Seq<Seq<Pixel>>>, p: int, q: usize, dir: Direction) -> (
    u64,
    usize,
) {
    (dissimilarity_spec(rasters[p], rasters[q as int], dir) as u64, q)
}

/// `list` ranks the pieces `q < upto` other than `p` by their fit on side
/// `dir` of `p`, best first, and keeps the best `limit` of them.
pub open spec fn ranks_first(
    list: Seq<(u64, usize)>,
    rasters: Seq<Seq<Seq<Pixel>>>,
    p: int,
    dir: Direction,
    limit: nat,
    upto: nat,
) -> bool {
    let others = if p < upto {
        (upto - 1) as nat
    } else {
        upto
    };
    &&& list.len() == if others <= limit {
        others
    } else {
        limit
    }
    &&& forall|i: int|
        0 <= i < list.len() ==> {
            &&& (#[trigger] list[i]).1 < upto
            &&& list[i].1 != p
            &&& list[i] == entry_for(rasters, p, list[i].1, dir)
            &&& list[i].0 <= MAX_SCORE
        }
    &&& forall|i: int, j: int|
        0 <= i < j < list.len() ==> ranks_before(#[trigger] list[i], #[trigger] list[j])
    &&& forall|q: usize|
        q < upto && q != p ==> {
            ||| list.contains(#[trigger] entry_for(rasters, p, q, dir))
            ||| others > limit && (list.len() == 0 || ranks_before(
                list.last(),
                entry_for(rasters, p, q, dir),
            ))
        }
}

/// `list` is the ranked list of piece `p` on side `dir`: the other pieces in
/// ascending order of score (of id among equal scores), cut off after the
/// best `limit`.
pub open spec fn is_ranking(
    list: Seq<(u64, usize)>,
    rasters: Seq<Seq<Seq<Pixel>>>,
    p: int,
    dir: Direction,
    limit: nat,
) -> bool {
    ranks_first(list, rasters, p, dir, limit, rasters.len())
}

/// Ranks the other pieces by their fit on side `dir` of piece `p`, and
/// keeps the best `limit`.
pub fn rank_neighbors(pieces: &Vec<Piece>, p: usize, dir: Direction, limit: usize) -> (list: Vec<
    (u64, usize),
>)
    requires
        is_piece_set(pieces@),
        p < pieces@.len(),
    ensures
        is_ranking(list@, rasters(pieces@), p as int, dir, limit as nat),
{
    let n = pieces.len();
    let ghost rs = rasters(pieces@);
    let mut list: Vec<(u64, usize)> = Vec::new();
    let mut q: usize = 0;
    while q < n
        invariant
            q <= n,
            n == pieces@.len(),
            p < n,
            is_piece_set(pieces@),
            rs == rasters(pieces@),
            ranks_first(list@, rs, p as int, dir, limit as nat, q as nat),
        decreases n - q,
    {
        if q != p {
            let score = calculate_dissimilarity(&pieces[p], &pieces[q], dir);
            let entry = (score, q);
            let ghost before = list@;
            proof {
                assert(entry == entry_for(rs, p as int, q, dir));
                if before.contains(entry) {
                    let k = choose|k: int| 0 <= k < before.len() && before[k] == entry;
                    assert(before[k].1 < q);
                }
                assert(is_ranked(before));
            }
            insert_ranked(&mut list, entry, limit);
            proof {
                lemma_ranking_grows(before, list@, rs, p as int, dir, limit as nat, q);
            }
        }
        q += 1;
    }
    list
}

/// One step of ranking: when `before` ranks the pieces below `q`, and
/// `after` is `before` with the entry of `q` put in and cut to `limit`,
/// then `after` ranks the pieces up to `q`.
proof fn lemma_ranking_grows(
    before: Seq<(u64, usize)>,
    after: Seq<(u64, usize)>,
    rasters: Seq<Seq<Seq<Pixel>>>,
    p: int,
    dir: Direction,
    limit: nat,
    q: usize,
)
    requires
        0 <= p,
        q != p,
        entry_for(rasters, p, q, dir).0 <= MAX_SCORE,
        ranks_first(before, rasters, p, dir, limit, q as nat),
        is_ranked(after),
        after.len() == (if before.len() < limit {
            before.len() + 1
        } else {
            limit
        }),
        forall|x: (u64, usize)| #[trigger]
            after.contains(x) ==> before.contains(x) || x == entry_for(rasters, p, q, dir),
        forall|x: (u64, usize)| #[trigger]
            before.contains(x) ==> {
                ||| after.contains(x)
                ||| before.len() == limit && (limit == 0 || ranks_before(after.last(), x))
            },
        after.contains(entry_for(rasters, p, q, dir)) || (before.len() == limit && (limit == 0
            || ranks_before(after.last(), entry_for(rasters, p, q, dir)))),
        before.len() == limit && limit > 0 ==> after.last() == before.last() || ranks_before(
            after.last(),
            before.last(),
        ),
    ensures
        ranks_first(after, rasters, p, dir, limit, (q + 1) as nat),
{
    let entry = entry_for(rasters, p, q, dir);
    let upto = (q + 1) as nat;
    let others: nat = if p < upto {
        (upto - 1) as nat
    } else {
        upto
    };
    assert forall|i: int| 0 <= i < after.len() implies {
        &&& (#[trigger] after[i]).1 < upto
        &&& after[i].1 != p
        &&& after[i] == entry_for(rasters, p, after[i].1, dir)
        &&& after[i].0 <= MAX_SCORE
    } by {
        let x = after[i];
        assert(after.contains(x));
        if x != entry {
            assert(before.contains(x));
            let k = choose|k: int| 0 <= k < before.len() && before[k] == x;
            assert(before[k].1 < q);
        }
    }
    assert forall|x: usize| x < upto && x != p implies {
        ||| after.contains(#[trigger] entry_for(rasters, p, x, dir))
        ||| others > limit && (after.len() == 0 || ranks_before(
            after.last(),
            entry_for(rasters, p, x, dir),
        ))
    } by {
        let e = entry_for(rasters, p, x, dir);
        let others_before: nat = if p < q {
            (q - 1) as nat
        } else {
            q as nat
        };
        assert(others == others_before + 1);
        assert(before.len() == limit ==> others > limit);
        if x == q || before.contains(e) {
            assert(before.contains(e) || e == entry);
            if !after.contains(e) {
                assert(before.len() == limit && (limit == 0 || ranks_before(after.last(), e)));
            }
        } else {
            assert(x < q);
            assert(others_before > limit && (before.len() == 0 || ranks_before(
                before.last(),
                e,
            )));
            assert(before.len() == limit);
            if limit > 0 {
                assert(ranks_before(before.last(), e));
                assert(ranks_before(after.last(), e));
            }
        }
    }
}

/// The id of the first entry of a ranked list.
pub open spec fn top_of(list: Seq<(u64, usize)>) -> Option<usize> {
    if list.len() > 0 {
        Some(list[0].1)
    } else {
        None
    }
}

/// The ranked list of piece `p` on side `dir` in a table of lists.
pub open spec fn list_at(table: Seq<Vec<Vec<(u64, usize)>>>, p: int, dir: Direction) -> Seq<
    (u64, usize),
> {
    table[p]@[dir.index_spec()]@
}

/// The best buddy of `p` on side `dir` according to `table`: the top match
/// of `p` there, provided that `p` is its top match on the opposite side.
pub open spec fn buddy_in(table: Seq<Vec<Vec<(u64, usize)>>>, p: int, dir: Direction) -> Option<
    usize,
> {
    match top_of(list_at(table, p, dir)) {
        Some(q) => if top_of(list_at(table, q as int, dir.inverse_spec())) == Some(p as usize) {
            Some(q)
        } else {
            None
        },
        None => None,
    }
}

/// `table` holds, for each of `n` pieces, four lists whose entries name
/// pieces below `n`.
pub open spec fn is_table(table: Seq<Vec<Vec<(u64, usize)>>>, n: nat) -> bool {
    &&& table.len() == n
    &&& forall|p: int| 0 <= p < n ==> (#[trigger] table[p])@.len() == 4
    &&& forall|p: int, dir: Direction, i: int|
        0 <= p < n && 0 <= i < list_at(table, p, dir).len() ==> (#[trigger] list_at(
            table,
            p,
            dir,
        )[i]).1 < n
}

/// The place of a recorded pair in the order of recording: by piece, then
/// by side.
pub open spec fn recorded_before(a: (usize, usize, Direction), b: (usize, usize, Direction)) -> bool {
    a.0 < b.0 || (a.0 == b.0 && a.2.index_spec() < b.2.index_spec())
}

/// `buddies` records exactly the best-buddy pairs of the pieces below
/// `upto`, each once, ordered by piece and side.
pub open spec fn records_buddies(
    buddies: Seq<(usize, usize, Direction)>,
    table: Seq<Vec<Vec<(u64, usize)>>>,
    upto: nat,
) -> bool {
    &&& forall|i: int|
        0 <= i < buddies.len() ==> (#[trigger] buddies[i]).0 < upto && buddy_in(
            table,
            buddies[i].0 as int,
            buddies[i].2,
        ) == Some(buddies[i].1)
    &&& forall|a: usize, dir: Direction|
        a < upto && (#[trigger] buddy_in(table, a as int, dir)) is Some ==> buddies.contains(
            (a, buddy_in(table, a as int, dir).unwrap(), dir),
        )
    &&& forall|i: int, j: int|
        0 <= i < j < buddies.len() ==> recorded_before(#[trigger] buddies[i], #[trigger] buddies[j])
}

/// Ranked neighbour lists for every piece and side, and the best-buddy
/// pairs derived from them.
pub struct AdjacencyData {
    limit: usize,
    compatibilities: Vec<Vec<Vec<(u64, usize)>>>,
    best_buddies: Vec<(usize, usize, Direction)>,
    pieces: Ghost<Seq<Seq<Seq<Pixel>>>>,
}

impl AdjacencyData {
    /// The rasters that the index was built from.
    pub closed spec fn rasters(&self) -> Seq<Seq<Seq<Pixel>>> {
        self.pieces@
    }

    /// The length at which ranked lists are cut off.
    pub closed spec fn limit(&self) -> nat {
        self.limit as nat
    }

    /// The ranked list of piece `p` on side `dir`.
    pub closed spec fn ranked(&self, p: int, dir: Direction) -> Seq<(u64, usize)> {
        list_at(self.compatibilities@, p, dir)
    }

    /// The recorded best-buddy pairs `(piece, buddy, side)`.
    pub closed spec fn buddies(&self) -> Seq<(usize, usize, Direction)> {
        self.best_buddies@
    }

    /// The tables have one entry per piece and side, and the recorded pairs
    /// are those that the ranked lists give.
    pub closed spec fn shaped(&self) -> bool {
        &&& is_table(self.compatibilities@, self.pieces@.len())
        &&& records_buddies(self.best_buddies@, self.compatibilities@, self.pieces@.len())
    }

    /// Number of pieces in the universe.
    pub open spec fn piece_count(&self) -> nat {
        self.rasters().len()
    }

    /// The best match of `p` on side `dir`, if it has any.
    pub open spec fn top_match(&self, p: int, dir: Direction) -> Option<usize> {
        top_of(self.ranked(p, dir))
    }

    /// The best buddy of `p` on side `dir`: its top match there, provided
    /// that `p` is the top match of that piece on the opposite side.
    pub open spec fn buddy_spec(&self, p: int, dir: Direction) -> Option<usize> {
        match self.top_match(p, dir) {
            Some(q) => if self.top_match(q as int, dir.inverse_spec()) == Some(p as usize) {
                Some(q)
            } else {
                None
            },
            None => None,
        }
    }

    /// The index is consistent with the rasters it was built from.
    pub open spec fn wf(&self) -> bool {
        &&& self.shaped()
        &&& is_raster_set(self.rasters())
        &&& forall|p: int, dir: Direction|
            0 <= p < self.piece_count() ==> is_ranking(
                #[trigger] self.ranked(p, dir),
                self.rasters(),
                p,
                dir,
                self.limit(),
            )
        &&& forall|i: int|
            0 <= i < self.buddies().len() ==> (#[trigger] self.buddies()[i]).0 < self.piece_count()
                && self.buddy_spec(self.buddies()[i].0 as int, self.buddies()[i].2) == Some(
                self.buddies()[i].1,
            )
        &&& forall|a: usize, dir: Direction|
            a < self.piece_count() && (#[trigger] self.buddy_spec(a as int, dir)) is Some
                ==> self.buddies().contains((a, self.buddy_spec(a as int, dir).unwrap(), dir))
        &&& forall|i: int, j: int|
            0 <= i < j < self.buddies().len() ==> recorded_before(
                #[trigger] self.buddies()[i],
                #[trigger] self.buddies()[j],
            )
    }

    /// Builds the index with lists of at most [`DEFAULT_LIMIT`] neighbours.
    pub fn new(pieces: &Vec<Piece>) -> (index: Self)
        requires
            is_piece_set(pieces@),
        ensures
            index.wf(),
            index.rasters() == rasters(pieces@),
            index.limit() == DEFAULT_LIMIT,
    {
        Self::with_limit(pieces, DEFAULT_LIMIT)
    }

    /// Builds the index with lists of at most `limit` neighbours.
    pub fn with_limit(pieces: &Vec<Piece>, limit: usize) -> (index: Self)
        requires
            is_piece_set(pieces@),
        ensures
            index.wf(),
            index.rasters() == rasters(pieces@),
            index.limit() == limit,
    {
        let compatibilities = Self::calculate_compatibilities(pieces, limit);
        let best_buddies = Self::generate_best_buddies(&compatibilities);
        let index = AdjacencyData {
            limit,
            compatibilities,
            best_buddies,
            pieces: Ghost(rasters(pieces@)),
        };
        proof {
            assert(is_raster_set(index.rasters())) by {
                assert forall|i: int| 0 <= i < pieces@.len() implies {
                    &&& crate::piece::is_raster(#[trigger] rasters(pieces@)[i])
                    &&& rasters(pieces@)[i].len() == rasters(pieces@)[0].len()
                    &&& rasters(pieces@)[i][0].len() == rasters(pieces@)[0][0].len()
                } by {
                    assert(pieces@[i].wf());
                }
            }
            assert forall|p: int, dir: Direction| 0 <= p < index.piece_count() implies is_ranking(
                #[trigger] index.ranked(p, dir),
                index.rasters(),
                p,
                dir,
                index.limit(),
            ) by {
                assert(is_ranking(
                    list_at(index.compatibilities@, p, dir),
                    rasters(pieces@),
                    p,
                    dir,
                    limit as nat,
                ));
            }
            assert forall|p: int, dir: Direction| #[trigger]
                index.buddy_spec(p, dir) == buddy_in(index.compatibilities@, p, dir) by {}
            assert forall|a: usize, dir: Direction|
                a < index.piece_count() && (#[trigger] index.buddy_spec(a as int, dir)) is Some implies index.buddies().contains(
                (a, index.buddy_spec(a as int, dir).unwrap(), dir),
            ) by {
                assert(buddy_in(index.compatibilities@, a as int, dir) is Some);
            }
        }
        index
    }

    /// Ranks, for every piece and side, the other pieces by their fit.
    fn calculate_compatibilities(pieces: &Vec<Piece>, limit: usize) -> (table: Vec<
        Vec<Vec<(u64, usize)>>,
    >)
        requires
            is_piece_set(pieces@),
        ensures
            is_table(table@, pieces@.len()),
            forall|p: int, dir: Direction|
                0 <= p < pieces@.len() ==> is_ranking(
                    #[trigger] list_at(table@, p, dir),
                    rasters(pieces@),
                    p,
                    dir,
                    limit as nat,
                ),
    {
        let n = pieces.len();
        let ghost rs = rasters(pieces@);
        let mut table: Vec<Vec<Vec<(u64, usize)>>> = Vec::new();
        let mut p: usize = 0;
        while p < n
            invariant
                p <= n,
                n == pieces@.len(),
                is_piece_set(pieces@),
                rs == rasters(pieces@),
                table@.len() == p,
                forall|a: int| 0 <= a < p ==> (#[trigger] table@[a])@.len() == 4,
                forall|a: int, dir: Direction|
                    0 <= a < p ==> is_ranking(
                        #[trigger] list_at(table@, a, dir),
                        rs,
                        a,
                        dir,
                        limit as nat,
                    ),
            decreases n - p,
        {
            let up = rank_neighbors(pieces, p, Direction::Up, limit);
            let down = rank_neighbors(pieces, p, Direction::Down, limit);
            let left = rank_neighbors(pieces, p, Direction::Left, limit);
            let right = rank_neighbors(pieces, p, Direction::Right, limit);
            let mut sides: Vec<Vec<(u64, usize)>> = Vec::new();
            sides.push(up);
            sides.push(down);
            sides.push(left);
            sides.push(right);
            let ghost before = table@;
            table.push(sides);
            proof {
                assert forall|a: int, dir: Direction| 0 <= a < p + 1 implies is_ranking(
                    #[trigger] list_at(table@, a, dir),
                    rs,
                    a,
                    dir,
                    limit as nat,
                ) by {
                    if a < p {
                        assert(table@[a] == before[a]);
                        assert(list_at(table@, a, dir) == list_at(before, a, dir));
                    }
                }
            }
            p += 1;
        }
        proof {
            assert forall|a: int, dir: Direction, i: int|
                0 <= a < n && 0 <= i < list_at(table@, a, dir).len() implies (#[trigger] list_at(
                table@,
                a,
                dir,
            )[i]).1 < n by {
                assert(is_ranking(list_at(table@, a, dir), rs, a, dir, limit as nat));
            }
        }
        table
    }

    /// Records `(p, q, dir)` when `q` is the best buddy of `p` on side `dir`.
    fn record_buddy(
        table: &Vec<Vec<Vec<(u64, usize)>>>,
        p: usize,
        dir: Direction,
        buddies: &mut Vec<(usize, usize, Direction)>,
    )
        requires
            is_table(table@, table@.len()),
            p < table@.len(),
        ensures
            final(buddies)@ == (match buddy_in(table@, p as int, dir) {
                Some(q) => old(buddies)@.push((p, q, dir)),
                None => old(buddies)@,
            }),
    {
        let list = &table[p][dir.index()];
        if list.len() > 0 {
            let q = list[0].1;
            assert(list_at(table@, p as int, dir)[0].1 < table@.len());
            let back = &table[q][dir.inverse().index()];
            if back.len() > 0 && back[0].1 == p {
                buddies.push((p, q, dir));
            }
        }
    }

    /// Derives the best-buddy pairs from the ranked lists.
    fn generate_best_buddies(table: &Vec<Vec<Vec<(u64, usize)>>>) -> (buddies: Vec<
        (usize, usize, Direction),
    >)
        requires
            is_table(table@, table@.len()),
        ensures
            records_buddies(buddies@, table@, table@.len()),
    {
        let n = table.len();
        let mut buddies: Vec<(usize, usize, Direction)> = Vec::new();
        let mut p: usize = 0;
        while p < n
            invariant
                p <= n,
                n == table@.len(),
                is_table(table@, table@.len()),
                records_buddies(buddies@, table@, p as nat),
            decreases n - p,
        {
            let ghost s0 = buddies@;
            Self::record_buddy(table, p, Direction::Up, &mut buddies);
            let ghost s1 = buddies@;
            Self::record_buddy(table, p, Direction::Down, &mut buddies);
            let ghost s2 = buddies@;
            Self::record_buddy(table, p, Direction::Left, &mut buddies);
            let ghost s3 = buddies@;
            Self::record_buddy(table, p, Direction::Right, &mut buddies);
            proof {
                lemma_buddies_grow(s0, s1, s2, s3, buddies@, table@, p);
            }
            p += 1;
        }
        buddies
    }

    /// Returns the best buddy of `piece` on side `relation`, if it has one.
    pub fn get_best_buddy_in_relation(&self, piece: usize, relation: Direction) -> (buddy: Option<
        usize,
    >)
        requires
            self.wf(),
            piece < self.piece_count(),
        ensures
            buddy == self.buddy_spec(piece as int, relation),
            buddy matches Some(b) ==> b < self.piece_count() && b != piece,
    {
        let mut i: usize = 0;
        while i < self.best_buddies.len()
            invariant
                i <= self.best_buddies@.len(),
                self.wf(),
                forall|k: int|
                    0 <= k < i ==> !((#[trigger] self.best_buddies@[k]).0 == piece
                        && self.best_buddies@[k].2 == relation),
            decreases self.best_buddies@.len() - i,
        {
            let (buddy1, buddy2, rel) = self.best_buddies[i];
            if rel == relation && buddy1 == piece {
                proof {
                    assert(self.buddies()[i as int] == (buddy1, buddy2, rel));
                    let list = self.ranked(piece as int, relation);
                    assert(is_ranking(list, self.rasters(), piece as int, relation, self.limit()));
                    assert(list[0].1 < self.piece_count() && list[0].1 != piece);
                }
                return Some(buddy2);
            }
            i += 1;
        }
        proof {
            let found = self.buddy_spec(piece as int, relation);
            if found is Some {
                let entry = (piece, found.unwrap(), relation);
                assert(self.buddies().contains(entry));
                let k = choose|k: int| 0 <= k < self.buddies().len() && self.buddies()[k] == entry;
                assert(self.best_buddies@[k].0 == piece);
            }
        }
        None
    }

    /// Returns the ranked list of `piece` on side `relation`, best first.
    pub fn get_most_compatible(&self, piece: usize, relation: Direction) -> (list: &Vec<
        (u64, usize),
    >)
        requires
            self.wf(),
            piece < self.piece_count(),
        ensures
            list@ == self.ranked(piece as int, relation),
            is_ranking(list@, self.rasters(), piece as int, relation, self.limit()),
    {
        assert(is_ranking(
            self.ranked(piece as int, relation),
            self.rasters(),
            piece as int,
            relation,
            self.limit(),
        ));
        &self.compatibilities[piece][relation.index()]
    }

    /// Returns the number of pieces in the universe.
    pub fn number_of_pieces(&self) -> (n: usize)
        requires
            self.wf(),
        ensures
            n == self.piece_count(),
    {
        self.compatibilities.len()
    }

    /// Returns the length at which ranked lists are cut off.
    pub fn list_limit(&self) -> (limit: usize)
        ensures
            limit == self.limit(),
    {
        self.limit
    }

    /// Returns the recorded best-buddy pairs `(piece, buddy, side)`.
    pub fn best_buddies(&self) -> (pairs: &Vec<(usize, usize, Direction)>)
        ensures
            pairs@ == self.buddies(),
    {
        &self.best_buddies
    }
}

impl AdjacencyData {
    /// Shape of every ranked list: it holds as many entries as there are
    /// other pieces, up to the limit; it ascends by score, and by id among
    /// equal scores; it names no piece twice, and never the piece itself.
    pub proof fn lemma_ranked_list_shape(&self, p: int, dir: Direction)
        requires
            self.wf(),
            0 <= p < self.piece_count(),
        ensures
            self.ranked(p, dir).len() == (if self.piece_count() - 1 <= self.limit() {
                (self.piece_count() - 1) as nat
            } else {
                self.limit()
            }),
            forall|i: int, j: int|
                0 <= i < j < self.ranked(p, dir).len() ==> {
                    let a = #[trigger] self.ranked(p, dir)[i];
                    let b = #[trigger] self.ranked(p, dir)[j];
                    a.0 < b.0 || (a.0 == b.0 && a.1 < b.1)
                },
            forall|i: int, j: int|
                0 <= i < self.ranked(p, dir).len() && 0 <= j < self.ranked(p, dir).len() && i != j
                    ==> (#[trigger] self.ranked(p, dir)[i]).1 != (#[trigger] self.ranked(
                    p,
                    dir,
                )[j]).1,
            forall|i: int|
                0 <= i < self.ranked(p, dir).len() ==> (#[trigger] self.ranked(p, dir)[i]).1 != p,
    {
        let list = self.ranked(p, dir);
        assert(is_ranking(list, self.rasters(), p, dir, self.limit()));
        assert forall|i: int, j: int|
            0 <= i < list.len() && 0 <= j < list.len() && i != j implies (#[trigger] list[i]).1
            != (#[trigger] list[j]).1 by {
            if list[i].1 == list[j].1 {
                assert(list[i] == entry_for(self.rasters(), p, list[i].1, dir));
                assert(list[j] == entry_for(self.rasters(), p, list[j].1, dir));
                if i < j {
                    assert(ranks_before(list[i], list[j]));
                } else {
                    assert(ranks_before(list[j], list[i]));
                }
            }
        }
    }

    /// Best buddies come in pairs: when `b` is recorded as the best buddy of
    /// `a` on side `dir`, then `a` is the best buddy of `b` on the opposite
    /// side.
    pub proof fn lemma_best_buddies_symmetric(&self, a: usize, b: usize, dir: Direction)
        requires
            self.wf(),
            self.buddies().contains((a, b, dir)),
        ensures
            self.buddy_spec(b as int, dir.inverse_spec()) == Some(a),
            self.buddies().contains((b, a, dir.inverse_spec())),
    {
        let k = choose|k: int| 0 <= k < self.buddies().len() && self.buddies()[k] == (a, b, dir);
        assert(self.buddy_spec(self.buddies()[k].0 as int, self.buddies()[k].2) == Some(
            self.buddies()[k].1,
        ));
        assert(dir.inverse_spec().inverse_spec() == dir);
        let list = self.ranked(a as int, dir);
        assert(is_ranking(list, self.rasters(), a as int, dir, self.limit()));
        assert(list[0].1 < self.piece_count());
        assert(self.buddy_spec(b as int, dir.inverse_spec()) is Some);
    }
}

/// Recording the four sides of piece `p` extends a record of the pieces
/// below `p` to one of the pieces up to `p`.
proof fn lemma_buddies_grow(
    s0: Seq<(usize, usize, Direction)>,
    s1: Seq<(usize, usize, Direction)>,
    s2: Seq<(usize, usize, Direction)>,
    s3: Seq<(usize, usize, Direction)>,
    s4: Seq<(usize, usize, Direction)>,
    table: Seq<Vec<Vec<(u64, usize)>>>,
    p: usize,
)
    requires
        records_buddies(s0, table, p as nat),
        s1 == step_record(s0, table, p, Direction::Up),
        s2 == step_record(s1, table, p, Direction::Down),
        s3 == step_record(s2, table, p, Direction::Left),
        s4 == step_record(s3, table, p, Direction::Right),
    ensures
        records_buddies(s4, table, (p + 1) as nat),
{
    assert forall|i: int| 0 <= i < s4.len() implies (#[trigger] s4[i]).0 < p + 1 && buddy_in(
        table,
        s4[i].0 as int,
        s4[i].2,
    ) == Some(s4[i].1) by {
        if i < s0.len() {
            assert(s4[i] == s0[i]);
        }
    }
    assert forall|a: usize, dir: Direction|
        a < p + 1 && (#[trigger] buddy_in(table, a as int, dir)) is Some implies s4.contains(
        (a, buddy_in(table, a as int, dir).unwrap(), dir),
    ) by {
        let e = (a, buddy_in(table, a as int, dir).unwrap(), dir);
        if a < p {
            assert(s0.contains(e));
            let k = choose|k: int| 0 <= k < s0.len() && s0[k] == e;
            assert(s4[k] == e);
        } else {
            match dir {
                Direction::Up => {
                    assert(s1.last() == e);
                    assert(s4[s1.len() - 1] == e);
                },
                Direction::Down => {
                    assert(s2.last() == e);
                    assert(s4[s2.len() - 1] == e);
                },
                Direction::Left => {
                    assert(s3.last() == e);
                    assert(s4[s3.len() - 1] == e);
                },
                Direction::Right => {
                    assert(s4.last() == e);
                },
            }
        }
    }
    assert forall|i: int, j: int| 0 <= i < j < s4.len() implies recorded_before(
        #[trigger] s4[i],
        #[trigger] s4[j],
    ) by {
        if j < s0.len() {
            assert(s4[i] == s0[i] && s4[j] == s0[j]);
        } else if i < s0.len() {
            assert(s4[i] == s0[i]);
            assert(s4[j].0 == p);
        } else {
            assert(s4[i].0 == p && s4[j].0 == p);
        }
    }
}

/// The record after looking at side `dir` of piece `p`.
pub open spec fn step_record(
    before: Seq<(usize, usize, Direction)>,
    table: Seq<Vec<Vec<(u64, usize)>>>,
    p: usize,
    dir: Direction,
) -> Seq<(usize, usize, Direction)> {
    match buddy_in(table, p as int, dir) {
        Some(q) => before.push((p, q, dir)),
        None => before,
    }
}

} // verus!
