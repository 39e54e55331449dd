//! Lists kept in ascending order of score and cut off at a limit.

use vstd::prelude::*;

verus! {

/// The order of a ranked list: by score, and by id among equal scores.
pub open spec fn ranks_before(a: (u64, usize), b: (u64, usize)) -> bool {
    a.0 < b.0 || (a.0 == b.0 && a.1 < b.1)
}

/// No entry of `list` ranks after a later one, nor equals it.
pub open spec fn is_ranked(list: Seq<(u64, usize)>) -> bool {
    forall|i: int, j: int|
        0 <= i < j < list.len() ==> ranks_before(#[trigger] list[i], #[trigger] list[j])
}

/// Puts `entry` at its place in the ranked `list`, then drops the last entry
/// if the list has grown beyond `limit`.
pub(crate) fn insert_ranked(list: &mut Vec<(u64, usize)>, entry: (u64, usize), limit: usize)
    requires
        is_ranked(old(list)@),
        old(list)@.len() <= limit,
        !old(list)@.contains(entry),
    ensures
        is_ranked(final(list)@),
        final(list)@.len() == (if old(list)@.len() < limit {
            old(list)@.len() + 1
        } else {
            limit as nat
        }),
        forall|x: (u64, usize)| #[trigger]
            final(list)@.contains(x) ==> old(list)@.contains(x) || x == entry,
        forall|x: (u64, usize)| #[trigger]
            old(list)@.contains(x) ==> {
                ||| final(list)@.contains(x)
                ||| old(list)@.len() == limit && (limit == 0 || ranks_before(
                    final(list)@.last(),
                    x,
                ))
            },
        final(list)@.contains(entry) || (old(list)@.len() == limit && (limit == 0 || ranks_before(
            final(list)@.last(),
            entry,
        ))),
        old(list)@.len() == limit && limit > 0 ==> final(list)@.last() == old(list)@.last()
            || ranks_before(final(list)@.last(), old(list)@.last()),
{
    let ghost before = list@;
    let mut pos: usize = 0;
    while pos < list.len() && (list[pos].0 < entry.0 || (list[pos].0 == entry.0 && list[pos].1
        < entry.1))
        invariant
            pos <= list@.len(),
            list@ == before,
            forall|i: int| 0 <= i < pos ==> ranks_before(#[trigger] list@[i], entry),
        decreases list@.len() - pos,
    {
        pos += 1;
    }
    assert(forall|i: int| pos <= i < before.len() ==> ranks_before(entry, #[trigger] before[i]))
        by {
        if pos < before.len() {
            assert(before.contains(before[pos as int]));
            assert(ranks_before(entry, before[pos as int]));
            assert forall|i: int| pos <= i < before.len() implies ranks_before(
                entry,
                #[trigger] before[i],
            ) by {
                if pos < i {
                    assert(ranks_before(before[pos as int], before[i]));
                }
            }
        }
    }
    if pos < limit {
        list.insert(pos, entry);
        let ghost grown = list@;
        proof {
            before.insert_ensures(pos as int, entry);
            assert forall|x: (u64, usize)| before.contains(x) implies grown.contains(x) by {
                let k = choose|k: int| 0 <= k < before.len() && before[k] == x;
                if k < pos {
                    assert(grown[k] == x);
                } else {
                    assert(grown[k + 1] == x);
                }
            }
            assert(grown[pos as int] == entry);
            assert(grown.contains(entry));
            assert forall|x: (u64, usize)| grown.contains(x) implies before.contains(x) || x
                == entry by {
                let k = choose|k: int| 0 <= k < grown.len() && grown[k] == x;
                if k < pos {
                    assert(before[k] == x);
                } else if k > pos {
                    assert(before[k - 1] == x);
                }
            }
            assert forall|i: int, j: int| 0 <= i < j < grown.len() implies ranks_before(
                #[trigger] grown[i],
                #[trigger] grown[j],
            ) by {
                if i < pos {
                    assert(grown[i] == before[i]);
                } else if i > pos {
                    assert(grown[i] == before[i - 1]);
                }
                if j < pos {
                    assert(grown[j] == before[j]);
                } else if j > pos {
                    assert(grown[j] == before[j - 1]);
                }
            }
        }
        if list.len() > limit {
            list.pop();
            proof {
                assert(list@ == grown.drop_last());
                assert forall|i: int| 0 <= i < list@.len() implies #[trigger] list@[i]
                    == grown[i] by {}
                assert forall|x: (u64, usize)| grown.contains(x) && x != grown.last() implies list@.contains(
                    x,
                ) by {
                    let k = choose|k: int| 0 <= k < grown.len() && grown[k] == x;
                    assert(list@[k] == x);
                }
                assert forall|x: (u64, usize)| list@.contains(x) implies grown.contains(x) by {
                    let k = choose|k: int| 0 <= k < list@.len() && list@[k] == x;
                    assert(grown[k] == x);
                }
                assert(ranks_before(list@.last(), grown.last())) by {
                    assert(list@.last() == grown[limit - 1]);
                }
                if pos < before.len() {
                    assert(grown.last() == before.last());
                }
            }
        }
    } else {
        proof {
            if limit > 0 {
                assert(ranks_before(list@[limit - 1], entry));
            }
        }
    }
}

} // verus!
