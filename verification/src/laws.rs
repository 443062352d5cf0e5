use crate::hashing::computes;
use crate::inclusion::{
    ancestor, first_position, is_first_position, lemma_root_exists, lemma_root_of_one,
    lemma_root_step, path_links, proof_links, recomputed_root, sided, sibling_link, LinkView,
    MerkleTreeDirection,
};
use crate::levels::{
    hash_linked, lemma_levels_over, linked_at, parents, recorded, shaped_at, tree_levels,
    well_shaped,
};
use crate::tree::{leaf_texts, MerkleTree};
use vstd::prelude::*;

verus! {

/// After the first `k + 1` links of the path from the leaf at `pos`, the
/// running hash is the node that stands `k` levels above that leaf.
proof fn lemma_path_prefix(
    f: spec_fn(Seq<char>) -> Seq<char>,
    levels: Seq<Seq<Seq<char>>>,
    pos: int,
    k: nat,
)
    requires
        well_shaped(levels),
        hash_linked(f, levels),
        0 <= pos < levels.last().len(),
        k < levels.len(),
    ensures
        0 <= ancestor(pos, k) < levels[levels.len() - 1 - k].len(),
        recomputed_root(f, path_links(levels, pos).take(k as int + 1)) == Some(
            levels[levels.len() - 1 - k][ancestor(pos, k)],
        ),
    decreases k,
{
    let path = path_links(levels, pos);
    let taken = path.take(k as int + 1);
    if k == 0 {
        lemma_root_of_one(f, taken);
    } else {
        lemma_path_prefix(f, levels, pos, (k - 1) as nat);
        lemma_root_step(f, taken);
        assert(taken.drop_last() =~= path.take(k as int));
        assert(taken.last() == path[k as int]);
        let d = levels.len() - k;
        let at = ancestor(pos, (k - 1) as nat);
        assert(shaped_at(levels, d));
        assert(linked_at(f, levels, d));
        let above = parents(f, levels[d]);
        assert(levels[d - 1][at / 2] == above[at / 2]);
        assert(path[k as int] == sibling_link(levels[d], at));
    }
}

/// In a tree whose levels are linked by the hash function, the path from any
/// leaf leads to the root.
pub proof fn lemma_path_leads_to_root(
    f: spec_fn(Seq<char>) -> Seq<char>,
    levels: Seq<Seq<Seq<char>>>,
    pos: int,
)
    requires
        well_shaped(levels),
        hash_linked(f, levels),
        0 <= pos < levels.last().len(),
    ensures
        recomputed_root(f, path_links(levels, pos)) == Some(levels[0][0]),
{
    let top = (levels.len() - 1) as nat;
    lemma_path_prefix(f, levels, pos, top);
    assert(path_links(levels, pos).take(top as int + 1) =~= path_links(levels, pos));
}

/// For every hash that the leaf level of a linked tree holds, a proof is
/// generated, and the root recomputed from it is the root of the tree.
pub proof fn lemma_generated_proof_leads_to_root(
    f: spec_fn(Seq<char>) -> Seq<char>,
    levels: Seq<Seq<Seq<char>>>,
    target: Seq<char>,
)
    requires
        well_shaped(levels),
        hash_linked(f, levels),
        levels.last().contains(target),
    ensures
        proof_links(levels, target) matches Some(links) && recomputed_root(f, links) == Some(
            levels[0][0],
        ),
{
    let leaves = levels.last();
    let some = choose|i: int| 0 <= i < leaves.len() && leaves[i] == target;
    lemma_lowest_exists(leaves, target, some);
    let pos = first_position(leaves, target);
    lemma_path_leads_to_root(f, levels, pos);
}

/// A level that holds `target` at `at` holds it at a lowest index.
proof fn lemma_lowest_exists(level: Seq<Seq<char>>, target: Seq<char>, at: int)
    requires
        0 <= at < level.len(),
        level[at] == target,
    ensures
        is_first_position(level, target, first_position(level, target)),
    decreases at,
{
    if exists|j: int| 0 <= j < at && level[j] == target {
        let j = choose|j: int| 0 <= j < at && level[j] == target;
        lemma_lowest_exists(level, target, j);
    } else {
        assert(is_first_position(level, target, at));
    }
}

/// A tree built over leaves holds the hash of every one of them in its leaf
/// level, and the proof generated for that hash leads to the root of the
/// tree under the same hash function.
pub proof fn lemma_built_tree_proves_its_leaves(
    f: spec_fn(Seq<char>) -> Seq<char>,
    leaves: Seq<Seq<char>>,
    i: int,
)
    requires
        0 <= i < leaves.len(),
    ensures
        tree_levels(f, leaves).last().contains(f(leaves[i])),
        proof_links(tree_levels(f, leaves), f(leaves[i])) matches Some(links) && recomputed_root(
            f,
            links,
        ) == Some(tree_levels(f, leaves)[0][0]),
{
    let bottom = leaves.map_values(f);
    lemma_levels_over(f, bottom);
    assert(recorded(bottom)[i] == f(leaves[i]));
    lemma_generated_proof_leads_to_root(f, tree_levels(f, leaves), f(leaves[i]));
}

/// Building is deterministic: two trees built with one hash function, which
/// computes some function, over leaves that read the same have the same
/// levels, and so the same root.
pub proof fn lemma_build_is_deterministic<F: Fn(&str) -> crate::Hash>(
    h: F,
    g: spec_fn(Seq<char>) -> Seq<char>,
    values_a: Seq<&str>,
    values_b: Seq<&str>,
    tree_a: MerkleTree,
    tree_b: MerkleTree,
)
    requires
        computes(h, g),
        leaf_texts(values_a) == leaf_texts(values_b),
        forall|any: spec_fn(Seq<char>) -> Seq<char>| #[trigger]
            computes(h, any) ==> tree_a@ == tree_levels(any, leaf_texts(values_a)),
        forall|any: spec_fn(Seq<char>) -> Seq<char>| #[trigger]
            computes(h, any) ==> tree_b@ == tree_levels(any, leaf_texts(values_b)),
    ensures
        tree_a@ == tree_b@,
        tree_a@[0][0] == tree_b@[0][0],
{
}

/// Two different texts on which `f` gives the same hash.
pub open spec fn is_collision(
    f: spec_fn(Seq<char>) -> Seq<char>,
    a: Seq<char>,
    b: Seq<char>,
) -> bool {
    a != b && f(a) == f(b)
}

/// `f` gives some hash for two different texts.
pub open spec fn has_collision(f: spec_fn(Seq<char>) -> Seq<char>) -> bool {
    exists|a: Seq<char>, b: Seq<char>| is_collision(f, a, b)
}

/// Every path that a tree gives for one of its leaves is sided.
pub proof fn lemma_path_is_sided(levels: Seq<Seq<Seq<char>>>, pos: int)
    requires
        levels.len() >= 1,
    ensures
        sided(path_links(levels, pos)),
{
}

/// `links` with the hash of link `at` replaced by `hash`.
pub open spec fn with_hash(links: Seq<LinkView>, at: int, hash: Seq<char>) -> Seq<LinkView> {
    links.update(at, LinkView { hash, direction: links[at].direction })
}

/// `links` with the side of link `at` replaced by `direction`.
pub open spec fn with_direction(
    links: Seq<LinkView>,
    at: int,
    direction: Option<MerkleTreeDirection>,
) -> Seq<LinkView> {
    links.update(at, LinkView { hash: links[at].hash, direction })
}

/// The other side.
pub open spec fn opposite(direction: MerkleTreeDirection) -> MerkleTreeDirection {
    match direction {
        MerkleTreeDirection::Left => MerkleTreeDirection::Right,
        MerkleTreeDirection::Right => MerkleTreeDirection::Left,
    }
}

/// Every front part of sided links leads to a root.
proof fn lemma_sided_runs(f: spec_fn(Seq<char>) -> Seq<char>, links: Seq<LinkView>, n: int)
    requires
        sided(links),
        1 <= n <= links.len(),
    ensures
        recomputed_root(f, links.take(n)) is Some,
{
    let front = links.take(n);
    assert forall|k: int| 1 <= k < front.len() implies (#[trigger] front[k]).direction is Some by {
        assert(front[k] == links[k]);
    }
    lemma_root_exists(f, front);
}

/// Joining a text with two different texts, or two different texts with one
/// text, gives two different texts.
proof fn lemma_join_differs(a: Seq<char>, b: Seq<char>, c: Seq<char>)
    requires
        a != b,
    ensures
        a + c != b + c,
        c + a != c + b,
{
    if a + c == b + c {
        assert((a + c).len() == (b + c).len());
        assert((a + c).take(a.len() as int) =~= a);
        assert((b + c).take(b.len() as int) =~= b);
    }
    if c + a == c + b {
        assert((c + a).skip(c.len() as int) =~= a);
        assert((c + b).skip(c.len() as int) =~= b);
    }
}

/// Two runs of sided links that agree from link `from` on and differ in the
/// running hash before it lead to different roots, unless `f` has a
/// collision.
proof fn lemma_difference_stays(
    f: spec_fn(Seq<char>) -> Seq<char>,
    links: Seq<LinkView>,
    other: Seq<LinkView>,
    from: int,
    n: int,
)
    requires
        sided(links),
        sided(other),
        links.len() == other.len(),
        1 <= from <= n <= links.len(),
        forall|k: int| from <= k < links.len() ==> links[k] == other[k],
        recomputed_root(f, links.take(from)) != recomputed_root(f, other.take(from)),
        !has_collision(f),
    ensures
        recomputed_root(f, links.take(n)) != recomputed_root(f, other.take(n)),
    decreases n - from,
{
    if n > from {
        lemma_difference_stays(f, links, other, from, n - 1);
        lemma_sided_runs(f, links, n - 1);
        lemma_sided_runs(f, other, n - 1);
        lemma_root_step(f, links.take(n));
        lemma_root_step(f, other.take(n));
        assert(links.take(n).drop_last() =~= links.take(n - 1));
        assert(other.take(n).drop_last() =~= other.take(n - 1));
        assert(links.take(n).last() == links[n - 1]);
        assert(other.take(n).last() == links[n - 1]);
        let a = recomputed_root(f, links.take(n - 1))->Some_0;
        let b = recomputed_root(f, other.take(n - 1))->Some_0;
        let sibling = links[n - 1].hash;
        lemma_join_differs(a, b, sibling);
        assert(!is_collision(f, a + sibling, b + sibling));
        assert(!is_collision(f, sibling + a, sibling + b));
    }
}

/// Tampering with a hash: where the hash of any one link of a proof is
/// replaced by another, the proof leads to another root, unless the hash
/// function has a collision.
pub proof fn lemma_substituted_hash_changes_root(
    f: spec_fn(Seq<char>) -> Seq<char>,
    links: Seq<LinkView>,
    at: int,
    hash: Seq<char>,
)
    requires
        sided(links),
        0 <= at < links.len(),
        hash != links[at].hash,
    ensures
        recomputed_root(f, with_hash(links, at, hash)) == recomputed_root(f, links)
            ==> has_collision(f),
{
    let other = with_hash(links, at, hash);
    if !has_collision(f) {
        assert(sided(other));
        assert(links.take(at + 1).drop_last() =~= links.take(at));
        assert(other.take(at + 1).drop_last() =~= links.take(at));
        assert(links.take(at + 1).last() == links[at]);
        assert(other.take(at + 1).last() == other[at]);
        if at == 0 {
            lemma_root_of_one(f, links.take(1));
            lemma_root_of_one(f, other.take(1));
        } else {
            lemma_sided_runs(f, links, at);
            lemma_root_step(f, links.take(at + 1));
            lemma_root_step(f, other.take(at + 1));
            let running = recomputed_root(f, links.take(at))->Some_0;
            lemma_join_differs(hash, links[at].hash, running);
            assert(!is_collision(f, running + hash, running + links[at].hash));
            assert(!is_collision(f, hash + running, links[at].hash + running));
        }
        lemma_difference_stays(f, links, other, at + 1, links.len() as int);
        assert(links.take(links.len() as int) =~= links);
        assert(other.take(links.len() as int) =~= other);
    }
}

/// Tampering with a side: where the side of a link after the first is
/// turned over, and the sibling it holds is as long as the running hash it
/// meets and differs from it, the proof leads to another root, unless the
/// hash function has a collision.
pub proof fn lemma_opposite_direction_changes_root(
    f: spec_fn(Seq<char>) -> Seq<char>,
    links: Seq<LinkView>,
    at: int,
)
    requires
        sided(links),
        1 <= at < links.len(),
        recomputed_root(f, links.take(at)) matches Some(running) && running.len()
            == links[at].hash.len() && running != links[at].hash,
    ensures
        recomputed_root(
            f,
            with_direction(links, at, Some(opposite(links[at].direction->Some_0))),
        ) == recomputed_root(f, links) ==> has_collision(f),
{
    let other = with_direction(links, at, Some(opposite(links[at].direction->Some_0)));
    if !has_collision(f) {
        assert(sided(other));
        assert(links.take(at + 1).drop_last() =~= links.take(at));
        assert(other.take(at + 1).drop_last() =~= links.take(at));
        assert(links.take(at + 1).last() == links[at]);
        assert(other.take(at + 1).last() == other[at]);
        lemma_root_step(f, links.take(at + 1));
        lemma_root_step(f, other.take(at + 1));
        let running = recomputed_root(f, links.take(at))->Some_0;
        let sibling = links[at].hash;
        if running + sibling == sibling + running {
            assert((running + sibling).take(running.len() as int) =~= running);
            assert((sibling + running).take(running.len() as int) =~= sibling);
        }
        assert(!is_collision(f, running + sibling, sibling + running));
        lemma_difference_stays(f, links, other, at + 1, links.len() as int);
        assert(links.take(links.len() as int) =~= links);
        assert(other.take(links.len() as int) =~= other);
    }
}

/// Tampering with a side: a proof in which any link after the first loses
/// its side leads to no root at all.
pub proof fn lemma_direction_removed_leads_nowhere(
    f: spec_fn(Seq<char>) -> Seq<char>,
    links: Seq<LinkView>,
    at: int,
)
    requires
        1 <= at < links.len(),
    ensures
        recomputed_root(f, with_direction(links, at, None)) is None,
{
    let other = with_direction(links, at, None);
    assert(other[at].direction is None);
    lemma_root_exists(f, other);
}

} // verus!
