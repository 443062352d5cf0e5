use crate::error::MerkleError;
use crate::hashing::{apply_hash, computes, hash_fn_total};
use vstd::prelude::*;

verus! {

/// The side of the running hash on which a sibling is joined.
#[derive(Clone, Copy, Debug, PartialEq, Eq, Structural)]
pub enum MerkleTreeDirection {
    Left,
    Right,
}

/// One step of an inclusion proof: a hash and the side it is joined on. The
/// first link of a proof holds the leaf and gives no side.
#[derive(Debug, PartialEq)]
pub struct MerkleTreeProofLink {
    pub hash: crate::Hash,
    pub direction: Option<MerkleTreeDirection>,
}

/// An inclusion proof: the leaf, then one sibling for each level on the way
/// to the root.
#[derive(Debug, PartialEq)]
pub struct MerkleTreeProof {
    pub links: Vec<MerkleTreeProofLink>,
}

/// What a link says: the text of its hash, and its side.
pub struct LinkView {
    pub hash: Seq<char>,
    pub direction: Option<MerkleTreeDirection>,
}

impl View for MerkleTreeProofLink {
    type V = LinkView;

    open spec fn view(&self) -> LinkView {
        LinkView { hash: self.hash@, direction: self.direction }
    }
}

impl View for MerkleTreeProof {
    type V = Seq<LinkView>;

    open spec fn view(&self) -> Seq<LinkView> {
        self.links@.map_values(|link: MerkleTreeProofLink| link@)
    }
}

/// `pos` is the lowest index at which `level` holds `target`.
pub open spec fn is_first_position(level: Seq<Seq<char>>, target: Seq<char>, pos: int) -> bool {
    &&& 0 <= pos < level.len()
    &&& level[pos] == target
    &&& forall|j: int| 0 <= j < pos ==> level[j] != target
}

/// The lowest index at which `level` holds `target`, where it holds it.
pub open spec fn first_position(level: Seq<Seq<char>>, target: Seq<char>) -> int {
    choose|pos: int| is_first_position(level, target, pos)
}

/// The index of the node that stands `steps` levels above index `pos`.
pub open spec fn ancestor(pos: int, steps: nat) -> int
    decreases steps,
{
    if steps == 0 {
        pos
    } else {
        ancestor(pos, (steps - 1) as nat) / 2
    }
}

/// The link for the sibling of the node at `pos`: a node at an even index has
/// its sibling on the right, one at an odd index on the left.
pub open spec fn sibling_link(level: Seq<Seq<char>>, pos: int) -> LinkView {
    if pos % 2 == 0 {
        LinkView { hash: level[pos + 1], direction: Some(MerkleTreeDirection::Right) }
    } else {
        LinkView { hash: level[pos - 1], direction: Some(MerkleTreeDirection::Left) }
    }
}

/// The links from the leaf at `pos` to the root: the leaf itself, then, level
/// by level upwards, the sibling of the node on the way.
pub open spec fn path_links(levels: Seq<Seq<Seq<char>>>, pos: int) -> Seq<LinkView> {
    Seq::new(
        levels.len(),
        |k: int|
            if k == 0 {
                LinkView { hash: levels.last()[pos], direction: None }
            } else {
                sibling_link(levels[levels.len() - k], ancestor(pos, (k - 1) as nat))
            },
    )
}

/// The proof for `target` in a tree: the path from the first leaf that holds
/// it, or none where no leaf does.
pub open spec fn proof_links(levels: Seq<Seq<Seq<char>>>, target: Seq<char>) -> Option<
    Seq<LinkView>,
> {
    if levels.len() > 0 && levels.last().contains(target) {
        Some(path_links(levels, first_position(levels.last(), target)))
    } else {
        None
    }
}

/// A level holds `target` at no more than one lowest index.
pub proof fn lemma_first_position(level: Seq<Seq<char>>, target: Seq<char>, pos: int)
    requires
        is_first_position(level, target, pos),
    ensures
        first_position(level, target) == pos,
        level.contains(target),
{
    let chosen = first_position(level, target);
    assert(is_first_position(level, target, chosen));
    if chosen < pos {
        assert(level[chosen] != target);
    }
    if pos < chosen {
        assert(level[pos] != target);
    }
}

/// Links as a proof holds them: at least the leaf link, and a side on
/// every link after it. The side of the first link is not read.
pub open spec fn sided(links: Seq<LinkView>) -> bool {
    &&& links.len() >= 1
    &&& forall|k: int| 1 <= k < links.len() ==> (#[trigger] links[k]).direction is Some
}

/// The running hash after one more link: the link's hash joined to it on
/// the link's side. A link without a side leaves no running hash, and
/// nothing starts one again.
pub open spec fn absorb(
    f: spec_fn(Seq<char>) -> Seq<char>,
    running: Option<Seq<char>>,
    link: LinkView,
) -> Option<Seq<char>> {
    match (running, link.direction) {
        (Some(node), Some(MerkleTreeDirection::Right)) => Some(f(node + link.hash)),
        (Some(node), Some(MerkleTreeDirection::Left)) => Some(f(link.hash + node)),
        _ => None,
    }
}

/// The root that a sequence of links leads to under the hash function `f`:
/// the running hash starts as the hash of the first link and absorbs every
/// later link, first to last. No links lead to no root.
pub open spec fn recomputed_root(
    f: spec_fn(Seq<char>) -> Seq<char>,
    links: Seq<LinkView>,
) -> Option<Seq<char>> {
    if links.len() == 0 {
        None
    } else {
        links.drop_first().fold_left(
            Some(links[0].hash),
            |running: Option<Seq<char>>, link: LinkView| absorb(f, running, link),
        )
    }
}

/// A single link leads to its own hash.
pub proof fn lemma_root_of_one(f: spec_fn(Seq<char>) -> Seq<char>, links: Seq<LinkView>)
    requires
        links.len() == 1,
    ensures
        recomputed_root(f, links) == Some(links[0].hash),
{
}

/// The root of two or more links is the root of all but the last, with the
/// last absorbed.
pub proof fn lemma_root_step(f: spec_fn(Seq<char>) -> Seq<char>, links: Seq<LinkView>)
    requires
        links.len() >= 2,
    ensures
        recomputed_root(f, links) == absorb(
            f,
            recomputed_root(f, links.drop_last()),
            links.last(),
        ),
{
    assert(links.drop_first().drop_last() =~= links.drop_last().drop_first());
}

/// Links lead to a root, under any hash function, exactly where they are
/// sided.
pub proof fn lemma_root_exists(f: spec_fn(Seq<char>) -> Seq<char>, links: Seq<LinkView>)
    ensures
        recomputed_root(f, links) is Some <==> sided(links),
    decreases links.len(),
{
    if links.len() >= 2 {
        let front = links.drop_last();
        lemma_root_exists(f, front);
        lemma_root_step(f, links);
        if sided(links) {
            assert forall|k: int| 1 <= k < front.len() implies (#[trigger] front[k]).direction
                is Some by {
                assert(front[k] == links[k]);
            }
        }
        if sided(front) && links.last().direction is Some {
            assert forall|k: int| 1 <= k < links.len() implies (#[trigger] links[k]).direction
                is Some by {
                if k < front.len() {
                    assert(front[k] == links[k]);
                }
            }
        }
        if !(links.last().direction is Some) {
            assert(links[links.len() - 1].direction is None);
        }
    }
}

impl MerkleTreeProof {
    /// Recomputes the root from the links alone, first to last.
    pub fn compute_root<F: Fn(&str) -> crate::Hash>(&self, h: F) -> (result: Result<
        crate::Hash,
        MerkleError,
    >)
        requires
            hash_fn_total(h),
        ensures
            match result {
                Ok(hash) => {
                    &&& sided(self@)
                    &&& forall|g: spec_fn(Seq<char>) -> Seq<char>| #[trigger]
                        computes(h, g) ==> recomputed_root(g, self@) == Some(hash@)
                },
                Err(error) => {
                    &&& !sided(self@)
                    &&& error == if self@.len() == 0 {
                        MerkleError::EmptyProof
                    } else {
                        MerkleError::MalformedProof
                    }
                },
            },
    {
        if self.links.len() == 0 {
            return Err(MerkleError::EmptyProof);
        }
        let mut current = self.links[0].hash.clone();
        let mut i: usize = 1;
        proof {
            assert forall|g: spec_fn(Seq<char>) -> Seq<char>| #[trigger]
                computes(h, g) implies recomputed_root(g, self@.take(1)) == Some(current@) by {
                lemma_root_of_one(g, self@.take(1));
            }
        }
        while i < self.links.len()
            invariant
                1 <= i <= self.links.len(),
                hash_fn_total(h),
                forall|k: int| 1 <= k < i ==> (#[trigger] self@[k]).direction is Some,
                forall|g: spec_fn(Seq<char>) -> Seq<char>| #[trigger]
                    computes(h, g) ==> recomputed_root(g, self@.take(i as int)) == Some(current@),
            decreases self.links.len() - i,
        {
            let link = &self.links[i];
            let ghost before = current@;
            let text = match link.direction {
                Some(MerkleTreeDirection::Right) => current.joined(&link.hash),
                Some(MerkleTreeDirection::Left) => link.hash.joined(&current),
                None => {
                    assert(self@[i as int].direction is None);
                    return Err(MerkleError::MalformedProof);
                },
            };
            current = apply_hash(&h, text.as_str());
            proof {
                assert(self@.take(i + 1).drop_last() =~= self@.take(i as int));
                assert(self@.take(i + 1).last() == link@);
                assert forall|g: spec_fn(Seq<char>) -> Seq<char>| #[trigger]
                    computes(h, g) implies recomputed_root(g, self@.take(i + 1)) == Some(
                    current@,
                ) by {
                    lemma_root_step(g, self@.take(i + 1));
                    assert(recomputed_root(g, self@.take(i as int)) == Some(before));
                }
            }
            i += 1;
        }
        proof {
            assert(self@.take(i as int) =~= self@);
        }
        Ok(current)
    }
}

/// Whether `proof` leads to `root` under `h`. A proof that leads to no root
/// at all, for want of links or of a side on a later link, does not.
pub fn verify_belongs_to_tree<F: Fn(&str) -> crate::Hash>(
    root: &crate::Hash,
    proof: &MerkleTreeProof,
    h: F,
) -> (belongs: bool)
    requires
        hash_fn_total(h),
    ensures
        belongs ==> sided(proof@),
        forall|g: spec_fn(Seq<char>) -> Seq<char>| #[trigger]
            computes(h, g) ==> belongs == (recomputed_root(g, proof@) == Some(root@)),
{
    let computed = proof.compute_root(h);
    proof {
        assert forall|g: spec_fn(Seq<char>) -> Seq<char>| #[trigger]
            computes(h, g) implies (computed is Ok <==> recomputed_root(g, proof@) is Some) by {
            lemma_root_exists(g, proof@);
        }
    }
    match computed {
        Ok(hash) => hash == *root,
        Err(_) => false,
    }
}

} // verus!
