use vstd::prelude::*;

verus! {

/// A level made even: one of odd count gets its last hash once more.
pub open spec fn padded(level: Seq<Seq<char>>) -> Seq<Seq<char>> {
    if level.len() % 2 == 1 {
        level.push(level.last())
    } else {
        level
    }
}

/// A level as a tree holds it: a single hash stays alone, any longer level is
/// made even.
pub open spec fn recorded(level: Seq<Seq<char>>) -> Seq<Seq<char>> {
    if level.len() <= 1 {
        level
    } else {
        padded(level)
    }
}

/// The level above `level`: the hash of each adjacent pair, the left child's
/// text before the right child's.
pub open spec fn parents(f: spec_fn(Seq<char>) -> Seq<char>, level: Seq<Seq<char>>) -> Seq<
    Seq<char>,
> {
    Seq::new((level.len() / 2) as nat, |i: int| f(level[2 * i] + level[2 * i + 1]))
}

/// The levels of the tree that stands on `level`, root first.
pub open spec fn levels_over(f: spec_fn(Seq<char>) -> Seq<char>, level: Seq<Seq<char>>) -> Seq<
    Seq<Seq<char>>,
>
    decreases level.len(),
{
    if level.len() <= 1 {
        seq![level]
    } else {
        levels_over(f, parents(f, padded(level))).push(padded(level))
    }
}

/// The levels of the tree over the leaf texts `leaves`, root first: the
/// bottom level holds the hash of each leaf, in order.
pub open spec fn tree_levels(f: spec_fn(Seq<char>) -> Seq<char>, leaves: Seq<Seq<char>>) -> Seq<
    Seq<Seq<char>>,
> {
    levels_over(f, leaves.map_values(f))
}

/// The count of a level of `count` hashes as a tree holds it.
pub open spec fn recorded_count(count: int) -> int {
    if count <= 1 {
        count
    } else {
        count + count % 2
    }
}

/// Level `d` is even, and the level above it has one hash for each of its
/// pairs, made even unless it is a single hash.
pub open spec fn shaped_at(levels: Seq<Seq<Seq<char>>>, d: int) -> bool {
    &&& levels[d].len() >= 2
    &&& levels[d].len() % 2 == 0
    &&& levels[d - 1].len() == recorded_count(levels[d].len() as int / 2)
}

/// The shape of a tree: a single root on top, and every level below it
/// shaped against the one above.
pub open spec fn well_shaped(levels: Seq<Seq<Seq<char>>>) -> bool {
    &&& levels.len() >= 1
    &&& levels[0].len() == 1
    &&& forall|d: int| 1 <= d < levels.len() ==> shaped_at(levels, d)
}

/// The level above level `d` holds the hashes of the pairs of level `d`.
pub open spec fn linked_at(
    f: spec_fn(Seq<char>) -> Seq<char>,
    levels: Seq<Seq<Seq<char>>>,
    d: int,
) -> bool {
    levels[d - 1] == recorded(parents(f, levels[d]))
}

/// Every level but the bottom one is made of the hashes of the level below.
pub open spec fn hash_linked(
    f: spec_fn(Seq<char>) -> Seq<char>,
    levels: Seq<Seq<Seq<char>>>,
) -> bool {
    forall|d: int| 1 <= d < levels.len() ==> linked_at(f, levels, d)
}

/// The tree that stands on a level has the shape of a tree, is linked by the
/// hash function, and has that level, as recorded, at its bottom.
pub proof fn lemma_levels_over(f: spec_fn(Seq<char>) -> Seq<char>, level: Seq<Seq<char>>)
    requires
        level.len() >= 1,
    ensures
        well_shaped(levels_over(f, level)),
        hash_linked(f, levels_over(f, level)),
        levels_over(f, level).last() == recorded(level),
    decreases level.len(),
{
    if level.len() > 1 {
        let bottom = padded(level);
        let above = parents(f, bottom);
        let upper = levels_over(f, above);
        let all = levels_over(f, level);
        lemma_levels_over(f, above);
        assert(all == upper.push(bottom));
        let last = upper.len() as int;
        assert(shaped_at(all, last)) by {
            assert(all[last] == bottom);
            assert(all[last - 1] == recorded(above));
        }
        assert(linked_at(f, all, last));
        assert forall|d: int| 1 <= d < all.len() implies shaped_at(all, d) by {
            if d < last {
                assert(shaped_at(upper, d));
                assert(all[d] == upper[d]);
                assert(all[d - 1] == upper[d - 1]);
            }
        }
        assert forall|d: int| 1 <= d < all.len() implies linked_at(f, all, d) by {
            if d < last {
                assert(linked_at(f, upper, d));
                assert(all[d] == upper[d]);
                assert(all[d - 1] == upper[d - 1]);
            }
        }
    }
}

} // verus!
