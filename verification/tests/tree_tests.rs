use merkle_tree::{
    verify_belongs_to_tree, MerkleError, MerkleTree, MerkleTreeDirection, MerkleTreeProof,
    MerkleTreeProofLink,
};

fn hash(text: &str) -> merkle_tree::Hash {
    merkle_tree::Hash::new(text)
}

fn level(texts: &[&str]) -> Vec<merkle_tree::Hash> {
    texts.iter().map(|text| hash(text)).collect()
}

fn link(text: &str, direction: Option<MerkleTreeDirection>) -> MerkleTreeProofLink {
    MerkleTreeProofLink { hash: hash(text), direction }
}

fn eight_leaf_tree() -> MerkleTree {
    MerkleTree {
        hashes: vec![
            vec![hash("abcdefgh")],
            vec![hash("abcd"), hash("efgh")],
            vec![hash("ab"), hash("cd"), hash("ef"), hash("gh")],
            vec![
                hash("a"),
                hash("b"),
                hash("c"),
                hash("d"),
                hash("e"),
                hash("f"),
                hash("g"),
                hash("h"),
            ],
        ],
    }
}

#[test]
fn build_merkle_tree_zero_hashes() {
    let values: Vec<&str> = Vec::new();

    let tree = MerkleTree::build(&values, |e: &str| merkle_tree::Hash::new(e));
    assert_eq!(tree.err(), Some(MerkleError::EmptyInput));
}

#[test]
fn build_merkle_tree_one_hash() {
    let values = vec!["a"];

    let tree = MerkleTree::build(&values, |e: &str| merkle_tree::Hash::new(e)).unwrap();
    assert_eq!(tree.hashes, vec![vec![hash("a")],]);
}

#[test]
fn build_merkle_tree_two_hashes() {
    let values = vec!["a", "b"];

    let tree = MerkleTree::build(&values, |e: &str| merkle_tree::Hash::new(e)).unwrap();
    assert_eq!(tree.hashes, vec![vec![hash("ab")], vec![hash("a"), hash("b")],]);
}

#[test]
fn build_merkle_tree_more_hashes() {
    let values = vec!["a", "b", "c", "d", "e", "f", "g", "h"];

    let tree = MerkleTree::build(&values, |e: &str| merkle_tree::Hash::new(e)).unwrap();
    assert_eq!(
        tree.hashes,
        vec![
            vec![hash("abcdefgh")],
            vec![hash("abcd"), hash("efgh")],
            vec![hash("ab"), hash("cd"), hash("ef"), hash("gh")],
            vec![
                hash("a"),
                hash("b"),
                hash("c"),
                hash("d"),
                hash("e"),
                hash("f"),
                hash("g"),
                hash("h")
            ],
        ]
    );
}

#[test]
fn build_merkle_tree_more_hashes_not_a_degree_of_two() {
    let values = vec!["a", "b", "c", "d", "e"];

    let tree = MerkleTree::build(&values, |e: &str| merkle_tree::Hash::new(e)).unwrap();
    assert_eq!(
        tree.hashes,
        vec![
            vec![hash("abcdeeee")],
            vec![hash("abcd"), hash("eeee")],
            vec![hash("ab"), hash("cd"), hash("ee"), hash("ee")],
            vec![hash("a"), hash("b"), hash("c"), hash("d"), hash("e"), hash("e")],
        ]
    );
}

#[test]
fn generate_proof_for_hash_present_in_tree() {
    let tree = eight_leaf_tree();
    assert_eq!(
        tree.generate_proof(hash("c")),
        Some(MerkleTreeProof {
            links: vec![
                MerkleTreeProofLink { hash: hash("c"), direction: None },
                MerkleTreeProofLink {
                    hash: hash("d"),
                    direction: Some(MerkleTreeDirection::Right)
                },
                MerkleTreeProofLink {
                    hash: hash("ab"),
                    direction: Some(MerkleTreeDirection::Left)
                },
                MerkleTreeProofLink {
                    hash: hash("efgh"),
                    direction: Some(MerkleTreeDirection::Right)
                },
            ]
        })
    )
}

#[test]
fn generate_proof_for_hash_absent_from_tree() {
    let tree = MerkleTree { hashes: vec![vec![hash("ab")], vec![hash("a"), hash("b")]] };
    assert_eq!(tree.generate_proof(hash("c")), None)
}

#[test]
fn compute_root_from_proof_4_level_tree() {
    let proof = MerkleTreeProof {
        links: vec![
            MerkleTreeProofLink { hash: hash("c"), direction: None },
            MerkleTreeProofLink { hash: hash("d"), direction: Some(MerkleTreeDirection::Right) },
            MerkleTreeProofLink { hash: hash("ab"), direction: Some(MerkleTreeDirection::Left) },
            MerkleTreeProofLink {
                hash: hash("efgh"),
                direction: Some(MerkleTreeDirection::Right),
            },
        ],
    };
    assert_eq!(proof.compute_root(|e: &str| merkle_tree::Hash::new(e)), Ok(hash("abcdefgh")))
}

#[test]
fn compute_root_from_proof_2_level_tree() {
    let proof = MerkleTreeProof {
        links: vec![
            MerkleTreeProofLink { hash: hash("a"), direction: None },
            MerkleTreeProofLink { hash: hash("b"), direction: Some(MerkleTreeDirection::Right) },
        ],
    };
    assert_eq!(proof.compute_root(|e: &str| merkle_tree::Hash::new(e)), Ok(hash("ab")))
}

#[test]
fn built_tree_has_the_shape_of_a_tree() {
    for count in 1..40usize {
        let texts: Vec<String> = (0..count).map(|i| format!("<{}>", i)).collect();
        let values: Vec<&str> = texts.iter().map(|text| text.as_str()).collect();
        let tree = MerkleTree::build(&values, |e: &str| merkle_tree::Hash::new(e)).unwrap();
        assert!(tree.is_well_formed());
        assert_eq!(tree.hashes[0].len(), 1);
        let leaves = tree.hashes.last().unwrap();
        assert_eq!(leaves.len(), if count == 1 { 1 } else { count + count % 2 });
    }
}

#[test]
fn build_is_deterministic() {
    let values = vec!["p", "q", "r"];
    let first = MerkleTree::build(&values, |e: &str| merkle_tree::Hash::new(e)).unwrap();
    let second = MerkleTree::build(&values, |e: &str| merkle_tree::Hash::new(e)).unwrap();
    assert_eq!(first.hashes, second.hashes);
    assert_eq!(first.get_root(), Ok(&hash("pqrr")));
    assert_eq!(second.get_root(), Ok(&hash("pqrr")));
}

#[test]
fn build_joins_left_child_before_right_child() {
    let values = vec!["x", "y"];
    let tree = MerkleTree::build(&values, |e: &str| merkle_tree::Hash::new(e)).unwrap();
    assert_eq!(tree.get_root(), Ok(&hash("xy")));
    assert_ne!(tree.get_root(), Ok(&hash("yx")));
}

#[test]
fn build_applies_the_hash_function_to_leaves_and_pairs() {
    let values = vec!["a", "b", "c"];
    let tree =
        MerkleTree::build(&values, |e: &str| merkle_tree::Hash::new(&format!("[{}]", e))).unwrap();
    assert_eq!(
        tree.hashes,
        vec![
            level(&["[[[a][b]][[c][c]]]"]),
            level(&["[[a][b]]", "[[c][c]]"]),
            level(&["[a]", "[b]", "[c]", "[c]"]),
        ]
    );
}

#[test]
fn root_of_eight_leaves() {
    let values = vec!["a", "b", "c", "d", "e", "f", "g", "h"];
    let tree = MerkleTree::build(&values, |e: &str| merkle_tree::Hash::new(e)).unwrap();
    assert_eq!(tree.get_root(), Ok(&hash("abcdefgh")));
}

#[test]
fn root_of_five_leaves() {
    let values = vec!["a", "b", "c", "d", "e"];
    let tree = MerkleTree::build(&values, |e: &str| merkle_tree::Hash::new(e)).unwrap();
    assert_eq!(tree.get_root(), Ok(&hash("abcdeeee")));
}

#[test]
fn single_leaf_tree_proves_its_leaf() {
    let values = vec!["z"];
    let tree = MerkleTree::build(&values, |e: &str| merkle_tree::Hash::new(e)).unwrap();
    assert_eq!(tree.get_root(), Ok(&hash("z")));
    let proof = tree.generate_proof(hash("z")).unwrap();
    assert_eq!(proof, MerkleTreeProof { links: vec![link("z", None)] });
    assert!(verify_belongs_to_tree(&hash("z"), &proof, |e: &str| merkle_tree::Hash::new(e)));
}

#[test]
fn get_root_of_a_tree_without_levels_is_malformed() {
    let tree = MerkleTree { hashes: Vec::new() };
    assert_eq!(tree.get_root(), Err(MerkleError::MalformedTree));
    assert!(!tree.is_well_formed());
}

#[test]
fn get_root_of_a_tree_with_an_empty_top_level_is_malformed() {
    let tree = MerkleTree { hashes: vec![Vec::new()] };
    assert_eq!(tree.get_root(), Err(MerkleError::MalformedTree));
    assert!(!tree.is_well_formed());
}

#[test]
fn get_root_of_a_tree_with_two_hashes_on_top_is_malformed() {
    let tree = MerkleTree { hashes: vec![level(&["a", "b"])] };
    assert_eq!(tree.get_root(), Err(MerkleError::MalformedTree));
    assert!(!tree.is_well_formed());
}

#[test]
fn shape_check_refuses_odd_and_mismatched_levels() {
    let odd = MerkleTree { hashes: vec![level(&["r"]), level(&["a", "b", "c"])] };
    assert!(!odd.is_well_formed());
    let wide = MerkleTree { hashes: vec![level(&["r"]), level(&["a", "b", "c", "d"])] };
    assert!(!wide.is_well_formed());
    let unpadded = MerkleTree {
        hashes: vec![
            level(&["r"]),
            level(&["x", "y", "z"]),
            level(&["a", "b", "c", "d", "e", "f"]),
        ],
    };
    assert!(!unpadded.is_well_formed());
    assert!(eight_leaf_tree().is_well_formed());
}

#[test]
fn proof_for_a_repeated_leaf_starts_at_its_first_place() {
    let values = vec!["a", "b", "a", "d"];
    let tree = MerkleTree::build(&values, |e: &str| merkle_tree::Hash::new(e)).unwrap();
    assert_eq!(
        tree.generate_proof(hash("a")),
        Some(MerkleTreeProof {
            links: vec![
                link("a", None),
                link("b", Some(MerkleTreeDirection::Right)),
                link("ad", Some(MerkleTreeDirection::Right)),
            ]
        })
    );
}

#[test]
fn proof_for_the_last_leaf_of_an_odd_tree_uses_the_padding() {
    let values = vec!["a", "b", "c", "d", "e"];
    let tree = MerkleTree::build(&values, |e: &str| merkle_tree::Hash::new(e)).unwrap();
    assert_eq!(
        tree.generate_proof(hash("e")),
        Some(MerkleTreeProof {
            links: vec![
                link("e", None),
                link("e", Some(MerkleTreeDirection::Right)),
                link("ee", Some(MerkleTreeDirection::Right)),
                link("abcd", Some(MerkleTreeDirection::Left)),
            ]
        })
    );
}

#[test]
fn proof_for_a_right_hand_leaf() {
    let tree = eight_leaf_tree();
    assert_eq!(
        tree.generate_proof(hash("h")),
        Some(MerkleTreeProof {
            links: vec![
                link("h", None),
                link("g", Some(MerkleTreeDirection::Left)),
                link("ef", Some(MerkleTreeDirection::Left)),
                link("abcd", Some(MerkleTreeDirection::Left)),
            ]
        })
    );
}

#[test]
fn proof_is_refused_for_an_inner_hash() {
    let tree = eight_leaf_tree();
    assert_eq!(tree.generate_proof(hash("ab")), None);
    assert_eq!(tree.generate_proof(hash("abcdefgh")), None);
}

#[test]
fn every_leaf_of_a_built_tree_is_proved() {
    for count in 1..20usize {
        let texts: Vec<String> = (0..count).map(|i| format!("<{}>", i)).collect();
        let values: Vec<&str> = texts.iter().map(|text| text.as_str()).collect();
        let tree =
            MerkleTree::build(&values, |e: &str| merkle_tree::Hash::new(&format!("({})", e)))
                .unwrap();
        let root = tree.get_root().unwrap().clone();
        for value in values.iter() {
            let leaf = merkle_tree::Hash::new(&format!("({})", value));
            let proof = tree.generate_proof(leaf).unwrap();
            assert_eq!(proof.links.len(), tree.hashes.len());
            assert_eq!(
                proof.compute_root(|e: &str| merkle_tree::Hash::new(&format!("({})", e))),
                Ok(root.clone())
            );
            assert!(verify_belongs_to_tree(&root, &proof, |e: &str| merkle_tree::Hash::new(
                &format!("({})", e)
            )));
        }
    }
}

#[test]
fn compute_root_of_no_links_is_an_empty_proof() {
    let proof = MerkleTreeProof { links: Vec::new() };
    assert_eq!(
        proof.compute_root(|e: &str| merkle_tree::Hash::new(e)),
        Err(MerkleError::EmptyProof)
    );
}

#[test]
fn compute_root_ending_on_a_link_without_a_side_is_malformed() {
    let proof = MerkleTreeProof { links: vec![link("a", None), link("b", None)] };
    assert_eq!(
        proof.compute_root(|e: &str| merkle_tree::Hash::new(e)),
        Err(MerkleError::MalformedProof)
    );
}

#[test]
fn compute_root_refuses_a_link_without_a_side_in_the_middle() {
    let proof = MerkleTreeProof {
        links: vec![
            link("a", None),
            link("b", None),
            link("c", Some(MerkleTreeDirection::Left)),
            link("d", Some(MerkleTreeDirection::Left)),
        ],
    };
    assert_eq!(
        proof.compute_root(|e: &str| merkle_tree::Hash::new(e)),
        Err(MerkleError::MalformedProof)
    );
}

#[test]
fn compute_root_refuses_links_that_all_lack_a_side() {
    let proof =
        MerkleTreeProof { links: vec![link("x", None), link("y", None), link("r", None)] };
    assert_eq!(
        proof.compute_root(|e: &str| merkle_tree::Hash::new(e)),
        Err(MerkleError::MalformedProof)
    );
}

#[test]
fn verification_refuses_links_that_all_lack_a_side() {
    let proof =
        MerkleTreeProof { links: vec![link("x", None), link("y", None), link("r", None)] };
    for root in ["r", "x", "y", "xy", "xyr", ""] {
        assert!(!verify_belongs_to_tree(&hash(root), &proof, |e: &str| {
            merkle_tree::Hash::new(e)
        }));
    }
}

#[test]
fn verification_refuses_a_link_without_a_side_in_the_middle() {
    let proof = MerkleTreeProof {
        links: vec![
            link("a", None),
            link("b", None),
            link("c", Some(MerkleTreeDirection::Left)),
            link("d", Some(MerkleTreeDirection::Left)),
        ],
    };
    for root in ["dc", "dcba", "dcab", "c", "d"] {
        assert!(!verify_belongs_to_tree(&hash(root), &proof, |e: &str| {
            merkle_tree::Hash::new(e)
        }));
    }
}

#[test]
fn compute_root_takes_the_first_link_whatever_its_side() {
    let proof = MerkleTreeProof {
        links: vec![
            link("a", Some(MerkleTreeDirection::Left)),
            link("b", Some(MerkleTreeDirection::Left)),
        ],
    };
    assert_eq!(proof.compute_root(|e: &str| merkle_tree::Hash::new(e)), Ok(hash("ba")));
}

#[test]
fn verification_accepts_the_generated_proof() {
    let tree = eight_leaf_tree();
    let proof = tree.generate_proof(hash("c")).unwrap();
    assert!(verify_belongs_to_tree(&hash("abcdefgh"), &proof, |e: &str| merkle_tree::Hash::new(
        e
    )));
}

#[test]
fn verification_refuses_another_root() {
    let tree = eight_leaf_tree();
    let proof = tree.generate_proof(hash("c")).unwrap();
    assert!(!verify_belongs_to_tree(&hash("abcdefgx"), &proof, |e: &str| {
        merkle_tree::Hash::new(e)
    }));
}

#[test]
fn verification_refuses_an_empty_proof() {
    let proof = MerkleTreeProof { links: Vec::new() };
    assert!(!verify_belongs_to_tree(&hash(""), &proof, |e: &str| merkle_tree::Hash::new(e)));
}

#[test]
fn verification_refuses_a_proof_that_ends_without_a_side() {
    let proof = MerkleTreeProof { links: vec![link("a", None), link("b", None)] };
    assert!(!verify_belongs_to_tree(&hash("ab"), &proof, |e: &str| merkle_tree::Hash::new(e)));
    assert!(!verify_belongs_to_tree(&hash("b"), &proof, |e: &str| merkle_tree::Hash::new(e)));
}

#[test]
fn verification_refuses_a_substituted_hash() {
    let tree = eight_leaf_tree();
    for at in 0..4usize {
        let mut proof = tree.generate_proof(hash("c")).unwrap();
        proof.links[at].hash = hash("x");
        assert!(!verify_belongs_to_tree(&hash("abcdefgh"), &proof, |e: &str| {
            merkle_tree::Hash::new(e)
        }));
    }
}

#[test]
fn verification_refuses_a_substituted_side() {
    let tree = eight_leaf_tree();
    for at in 1..4usize {
        let mut proof = tree.generate_proof(hash("c")).unwrap();
        proof.links[at].direction = match proof.links[at].direction {
            Some(MerkleTreeDirection::Left) => Some(MerkleTreeDirection::Right),
            _ => Some(MerkleTreeDirection::Left),
        };
        assert!(!verify_belongs_to_tree(&hash("abcdefgh"), &proof, |e: &str| {
            merkle_tree::Hash::new(e)
        }));
        let mut proof = tree.generate_proof(hash("c")).unwrap();
        proof.links[at].direction = None;
        assert!(!verify_belongs_to_tree(&hash("abcdefgh"), &proof, |e: &str| {
            merkle_tree::Hash::new(e)
        }));
    }
}

#[test]
fn a_turned_side_beside_an_equal_sibling_goes_unnoticed() {
    let values = vec!["a", "b", "c", "d", "e"];
    let tree = MerkleTree::build(&values, |e: &str| merkle_tree::Hash::new(e)).unwrap();
    let mut proof = tree.generate_proof(hash("e")).unwrap();
    assert_eq!(proof.links[1], link("e", Some(MerkleTreeDirection::Right)));
    proof.links[1].direction = Some(MerkleTreeDirection::Left);
    assert!(verify_belongs_to_tree(&hash("abcdeeee"), &proof, |e: &str| {
        merkle_tree::Hash::new(e)
    }));
}

#[test]
fn hash_compares_and_copies_by_text() {
    let first = hash("abc");
    let second = first.clone();
    assert_eq!(first, second);
    assert_eq!(second.as_str(), "abc");
    assert_ne!(first, hash("abd"));
    assert_eq!(hash("ab").joined(&hash("cd")), "abcd");
}
