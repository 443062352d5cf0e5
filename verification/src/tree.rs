use crate::error::MerkleError;
use crate::hashing::{apply_hash, computes, hash_fn_total};
use crate::inclusion::{
    ancestor, is_first_position, lemma_first_position, path_links, proof_links, sibling_link,
    MerkleTreeDirection, MerkleTreeProof, MerkleTreeProofLink,
};
use crate::levels::{
    levels_over, padded, parents, recorded_count, shaped_at, tree_levels, well_shaped,
};
use vstd::prelude::*;

verus! {

/// A binary hash tree, held level by level with the root level first and the
/// leaf level last.
#[derive(Debug)]
pub struct MerkleTree {
    pub hashes: Vec<Vec<crate::Hash>>,
}

/// The texts of the hashes of one level.
pub open spec fn level_text(level: Seq<crate::Hash>) -> Seq<Seq<char>> {
    level.map_values(|hash: crate::Hash| hash@)
}

/// The texts of the hashes of several levels.
pub open spec fn levels_text(levels: Seq<Vec<crate::Hash>>) -> Seq<Seq<Seq<char>>> {
    levels.map_values(|level: Vec<crate::Hash>| level_text(level@))
}

/// The texts of the leaves handed to `build`.
pub open spec fn leaf_texts(values: Seq<&str>) -> Seq<Seq<char>> {
    values.map_values(|value: &str| value@)
}

impl View for MerkleTree {
    type V = Seq<Seq<Seq<char>>>;

    open spec fn view(&self) -> Seq<Seq<Seq<char>>> {
        levels_text(self.hashes@)
    }
}

/// Level `k` of levels recorded from the leaves upward is even and fits
/// under what stands above it: the next recorded level, or else a level of
/// `width` hashes that is still to be recorded.
spec fn stacked_at(lower: Seq<Seq<Seq<char>>>, width: int, k: int) -> bool {
    &&& lower[k].len() >= 2
    &&& lower[k].len() % 2 == 0
    &&& k + 1 < lower.len() ==> lower[k + 1].len() == recorded_count(lower[k].len() as int / 2)
    &&& k + 1 == lower.len() ==> width == lower[k].len() as int / 2
}

/// Every level recorded so far fits under what stands above it.
spec fn stacked(lower: Seq<Seq<Seq<char>>>, width: int) -> bool {
    forall|k: int| 0 <= k < lower.len() ==> stacked_at(lower, width, k)
}

/// Levels stacked under a single hash, turned root first, have the shape of
/// a tree.
proof fn lemma_stacked_is_shaped(lower: Seq<Seq<Seq<char>>>, top: Seq<Seq<char>>)
    requires
        top.len() == 1,
        stacked(lower, 1),
    ensures
        well_shaped(seq![top] + lower.reverse()),
{
    let levels = seq![top] + lower.reverse();
    let n = lower.len() as int;
    assert forall|d: int| 1 <= d < levels.len() implies shaped_at(levels, d) by {
        assert(levels[d] == lower[n - d]);
        assert(stacked_at(lower, 1, n - d));
        if d > 1 {
            assert(levels[d - 1] == lower[n - d + 1]);
        }
    }
}

/// The bottom level of a tree holds the hashes made of the leaves, in
/// order, made even where there are two or more.
spec fn kept_at_bottom(hashed: Seq<crate::Hash>, bottom: Seq<crate::Hash>) -> bool {
    &&& bottom.len() == recorded_count(hashed.len() as int)
    &&& forall|j: int| 0 <= j < hashed.len() ==> bottom[j] == hashed[j]
}

/// The hash of each leaf, in order.
fn hash_leaves<F: Fn(&str) -> crate::Hash>(values: &Vec<&str>, h: &F) -> (level: Vec<crate::Hash>)
    requires
        hash_fn_total(*h),
    ensures
        level.len() == values.len(),
        forall|j: int| 0 <= j < values.len() ==> call_ensures(*h, (values[j],), #[trigger] level[j]),
        forall|g: spec_fn(Seq<char>) -> Seq<char>| #[trigger]
            computes(*h, g) ==> level_text(level@) == leaf_texts(values@).map_values(g),
{
    let mut level: Vec<crate::Hash> = Vec::new();
    let mut i: usize = 0;
    while i < values.len()
        invariant
            i <= values.len(),
            level.len() == i,
            hash_fn_total(*h),
            forall|j: int| 0 <= j < i ==> call_ensures(*h, (values[j],), #[trigger] level[j]),
            forall|g: spec_fn(Seq<char>) -> Seq<char>, j: int|
                #![trigger computes(*h, g), level[j]]
                computes(*h, g) && 0 <= j < i ==> level[j]@ == g(values[j]@),
        decreases values.len() - i,
    {
        level.push(apply_hash(h, values[i]));
        i += 1;
    }
    assert forall|g: spec_fn(Seq<char>) -> Seq<char>| #[trigger] computes(*h, g) implies level_text(
        level@,
    ) == leaf_texts(values@).map_values(g) by {
        assert forall|j: int| 0 <= j < level.len() implies level_text(level@)[j] == leaf_texts(
            values@,
        ).map_values(g)[j] by {
            assert(level[j]@ == g(values[j]@));
        }
        assert(level_text(level@) =~= leaf_texts(values@).map_values(g));
    }
    level
}

/// The level above an even level: one hash for each adjacent pair.
fn combine_pairs<F: Fn(&str) -> crate::Hash>(level: &Vec<crate::Hash>, h: &F) -> (above: Vec<
    crate::Hash,
>)
    requires
        hash_fn_total(*h),
        level.len() % 2 == 0,
    ensures
        above.len() * 2 == level.len(),
        forall|g: spec_fn(Seq<char>) -> Seq<char>| #[trigger]
            computes(*h, g) ==> level_text(above@) == parents(g, level_text(level@)),
{
    let mut above: Vec<crate::Hash> = Vec::new();
    let mut idx: usize = 0;
    while idx < level.len()
        invariant
            idx <= level.len(),
            idx % 2 == 0,
            level.len() % 2 == 0,
            above.len() * 2 == idx,
            hash_fn_total(*h),
            forall|g: spec_fn(Seq<char>) -> Seq<char>, j: int|
                #![trigger computes(*h, g), above[j]]
                computes(*h, g) && 0 <= j < above.len() ==> above[j]@ == g(
                    level[2 * j]@ + level[2 * j + 1]@,
                ),
        decreases level.len() - idx,
    {
        let text = level[idx].joined(&level[idx + 1]);
        above.push(apply_hash(h, text.as_str()));
        idx += 2;
    }
    assert forall|g: spec_fn(Seq<char>) -> Seq<char>| #[trigger] computes(*h, g) implies level_text(
        above@,
    ) == parents(g, level_text(level@)) by {
        assert forall|j: int| 0 <= j < above.len() implies level_text(above@)[j] == parents(
            g,
            level_text(level@),
        )[j] by {
            assert(above[j]@ == g(level[2 * j]@ + level[2 * j + 1]@));
        }
        assert(level_text(above@) =~= parents(g, level_text(level@)));
    }
    above
}

/// The same items, last first.
fn reversed<T>(items: Vec<T>) -> (turned: Vec<T>)
    ensures
        turned@ == items@.reverse(),
{
    let ghost given = items@;
    let mut rest = items;
    let mut turned: Vec<T> = Vec::new();
    while rest.len() > 0
        invariant
            rest@ == given.take(rest.len() as int),
            turned.len() + rest.len() == given.len(),
            forall|j: int| 0 <= j < turned.len() ==> turned[j] == given[given.len() - 1 - j],
        decreases rest.len(),
    {
        let item = rest.pop().unwrap();
        turned.push(item);
    }
    assert(turned@ =~= given.reverse());
    turned
}

/// The lowest index at which `level` holds a hash that reads as `target`.
fn first_index_of(level: &Vec<crate::Hash>, target: &crate::Hash) -> (found: Option<usize>)
    ensures
        match found {
            Some(pos) => is_first_position(level_text(level@), target@, pos as int),
            None => !level_text(level@).contains(target@),
        },
{
    let mut i: usize = 0;
    while i < level.len()
        invariant
            i <= level.len(),
            forall|j: int| 0 <= j < i ==> level_text(level@)[j] != target@,
        decreases level.len() - i,
    {
        if level[i] == *target {
            return Some(i);
        }
        i += 1;
    }
    None
}

impl MerkleTree {
    /// The levels have the shape of a tree: a single root on top, every
    /// other level even and twice as wide as the real hashes above it.
    pub open spec fn well_formed(&self) -> bool {
        well_shaped(self@)
    }

    /// Whether the levels have the shape of a tree.
    pub fn is_well_formed(&self) -> (shaped: bool)
        ensures
            shaped == self.well_formed(),
    {
        let height = self.hashes.len();
        if height == 0 || self.hashes[0].len() != 1 {
            return false;
        }
        let mut d: usize = 1;
        while d < height
            invariant
                1 <= d <= height,
                height == self.hashes.len(),
                self@.len() == height,
                self@[0].len() == 1,
                forall|e: int| 1 <= e < d ==> shaped_at(self@, e),
            decreases height - d,
        {
            let count = self.hashes[d].len();
            let above = self.hashes[d - 1].len();
            proof {
                assert(self@[d as int].len() == count);
                assert(self@[d - 1].len() == above);
            }
            let pairs = count / 2;
            let expected = if pairs <= 1 {
                pairs
            } else {
                pairs + pairs % 2
            };
            if count < 2 || count % 2 != 0 || above != expected {
                assert(!shaped_at(self@, d as int));
                return false;
            }
            d += 1;
        }
        true
    }

    /// Builds the tree over `values`, hashing each leaf and then each
    /// adjacent pair, level by level, up to a single root.
    pub fn build<F: Fn(&str) -> crate::Hash>(values: &Vec<&str>, h: F) -> (result: Result<
        MerkleTree,
        MerkleError,
    >)
        requires
            hash_fn_total(h),
        ensures
            match result {
                Ok(tree) => {
                    &&& values@.len() > 0
                    &&& tree.well_formed()
                    &&& tree@.last().len() == recorded_count(values@.len() as int)
                    &&& forall|j: int|
                        0 <= j < values@.len() ==> call_ensures(
                            h,
                            (values@[j],),
                            #[trigger] tree.hashes@.last()@[j],
                        )
                    &&& forall|g: spec_fn(Seq<char>) -> Seq<char>| #[trigger]
                        computes(h, g) ==> tree@ == tree_levels(g, leaf_texts(values@))
                },
                Err(error) => values@.len() == 0 && error == MerkleError::EmptyInput,
            },
    {
        if values.len() == 0 {
            return Err(MerkleError::EmptyInput);
        }
        let mut current = hash_leaves(values, &h);
        let ghost hashed = current@;
        let ghost leaves = level_text(current@);
        let mut below: Vec<Vec<crate::Hash>> = Vec::new();
        while current.len() > 1
            invariant
                current.len() >= 1,
                hash_fn_total(h),
                hashed.len() == values.len(),
                below.len() == 0 ==> current@ == hashed,
                below.len() > 0 ==> kept_at_bottom(hashed, below@[0]@),
                forall|g: spec_fn(Seq<char>) -> Seq<char>| #[trigger]
                    computes(h, g) ==> levels_over(g, leaves) =~= levels_over(
                        g,
                        level_text(current@),
                    ) + levels_text(below@).reverse(),
                stacked(levels_text(below@), current.len() as int),
            decreases current.len(),
        {
            let ghost before = level_text(current@);
            let ghost lower = levels_text(below@);
            let ghost rows = below@;
            if current.len() % 2 != 0 {
                let last = current[current.len() - 1].clone();
                current.push(last);
            }
            assert(level_text(current@) =~= padded(before));
            let above = combine_pairs(&current, &h);
            below.push(current);
            current = above;
            proof {
                if rows.len() > 0 {
                    assert(below@[0] == rows[0]);
                }
                assert(levels_text(below@) =~= lower.push(padded(before)));
                assert forall|k: int| 0 <= k < lower.len() + 1 implies stacked_at(
                    lower.push(padded(before)),
                    current.len() as int,
                    k,
                ) by {
                    if k < lower.len() {
                        assert(stacked_at(lower, before.len() as int, k));
                    }
                }
                assert(levels_text(below@).reverse() =~= seq![padded(before)] + lower.reverse());
                assert forall|g: spec_fn(Seq<char>) -> Seq<char>| #[trigger]
                    computes(h, g) implies levels_over(g, leaves) =~= levels_over(
                    g,
                    level_text(current@),
                ) + levels_text(below@).reverse() by {
                    assert(level_text(current@) == parents(g, padded(before)));
                    assert(levels_over(g, before) == levels_over(g, level_text(current@)).push(
                        padded(before),
                    ));
                }
            }
        }
        let ghost top = level_text(current@);
        let ghost lower = levels_text(below@);
        let ghost rows = below@;
        below.push(current);
        let hashes = reversed(below);
        proof {
            if rows.len() > 0 {
                assert(below@[0] == rows[0]);
            }
            assert(hashes@.last() == below@[0]);
            assert(kept_at_bottom(hashed, hashes@.last()@));
            assert(levels_text(hashes@).last() == level_text(hashes@.last()@));
            assert(levels_text(below@) =~= lower.push(top));
            assert(levels_text(hashes@) =~= levels_text(below@).reverse());
            assert(levels_text(hashes@) =~= seq![top] + lower.reverse());
            lemma_stacked_is_shaped(lower, top);
            assert forall|g: spec_fn(Seq<char>) -> Seq<char>| #[trigger]
                computes(h, g) implies levels_text(hashes@) == tree_levels(
                g,
                leaf_texts(values@),
            ) by {
                assert(levels_over(g, top) =~= seq![top]);
                assert(levels_text(hashes@) =~= levels_over(g, leaves));
            }
        }
        Ok(MerkleTree { hashes })
    }

    /// The root: the single hash of the top level.
    pub fn get_root(&self) -> (result: Result<&crate::Hash, MerkleError>)
        ensures
            match result {
                Ok(root) => self@.len() >= 1 && self@[0].len() == 1 && root@ == self@[0][0],
                Err(error) => error == MerkleError::MalformedTree && !(self@.len() >= 1
                    && self@[0].len() == 1),
            },
    {
        if self.hashes.len() >= 1 && self.hashes[0].len() == 1 {
            Ok(&self.hashes[0][0])
        } else {
            Err(MerkleError::MalformedTree)
        }
    }

    /// The inclusion proof for the first leaf whose hash reads as `hash`:
    /// the leaf, then the sibling at each level on the way up to the root.
    pub fn generate_proof(&self, hash: crate::Hash) -> (result: Option<MerkleTreeProof>)
        requires
            self.well_formed(),
        ensures
            match proof_links(self@, hash@) {
                Some(links) => result matches Some(proof) && proof@ == links,
                None => result is None,
            },
    {
        let height = self.hashes.len();
        let found = first_index_of(&self.hashes[height - 1], &hash);
        let first = match found {
            Some(pos) => pos,
            None => {
                return None;
            },
        };
        proof {
            lemma_first_position(self@.last(), hash@, first as int);
        }
        let ghost path = path_links(self@, first as int);
        let mut links: Vec<MerkleTreeProofLink> = Vec::new();
        links.push(MerkleTreeProofLink { hash, direction: None });
        let mut pos = first;
        let mut level = height - 1;
        while level > 0
            invariant
                self.well_formed(),
                height == self.hashes.len(),
                level < height,
                pos < self.hashes[level as int].len(),
                pos == ancestor(first as int, (height - 1 - level) as nat),
                path == path_links(self@, first as int),
                links@.map_values(|link: MerkleTreeProofLink| link@) =~= path.take(height - level),
            decreases level,
        {
            let row = &self.hashes[level];
            proof {
                assert(shaped_at(self@, level as int));
                assert(self@[level as int].len() == row.len());
                assert(self@[level - 1].len() == self.hashes[level - 1].len());
            }
            let link = if pos % 2 == 0 {
                MerkleTreeProofLink {
                    hash: row[pos + 1].clone(),
                    direction: Some(MerkleTreeDirection::Right),
                }
            } else {
                MerkleTreeProofLink {
                    hash: row[pos - 1].clone(),
                    direction: Some(MerkleTreeDirection::Left),
                }
            };
            proof {
                assert(link@ == sibling_link(self@[level as int], pos as int));
                assert(path[height - level] == link@);
            }
            let ghost sofar = links@.map_values(|link: MerkleTreeProofLink| link@);
            links.push(link);
            proof {
                assert(links@.map_values(|link: MerkleTreeProofLink| link@) =~= sofar.push(link@));
                assert(path.take(height - level + 1) =~= path.take(height - level).push(
                    path[height - level],
                ));
            }
            pos = pos / 2;
            level -= 1;
        }
        Some(MerkleTreeProof { links })
    }
}

} // verus!
