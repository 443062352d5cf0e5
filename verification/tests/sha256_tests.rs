use merkle_tree::{sha256_hash, try_sha256_hash};

// SHA-256 of "124935989" is
// 06dfa74d7519da9f102302d2b213dd86167445730a55751e442237096f28341c,
// which happens to be well-formed UTF-8.
const READABLE_INPUT: &str = "124935989";
const READABLE_DIGEST: &str =
    "\u{6}\u{7e7}Mu\u{19}\u{69f}\u{10}#\u{2}\u{4b2}\u{13}\u{746}\u{16}tEs\nUu\u{1e}D\"7\to(4\u{1c}";

#[test]
fn sha256_hash_reads_the_digest_as_text() {
    assert_eq!(sha256_hash(READABLE_INPUT), merkle_tree::Hash::new(READABLE_DIGEST));
    assert_eq!(
        sha256_hash(READABLE_INPUT).as_str().as_bytes(),
        &[
            0x06, 0xdf, 0xa7, 0x4d, 0x75, 0x19, 0xda, 0x9f, 0x10, 0x23, 0x02, 0xd2, 0xb2, 0x13,
            0xdd, 0x86, 0x16, 0x74, 0x45, 0x73, 0x0a, 0x55, 0x75, 0x1e, 0x44, 0x22, 0x37, 0x09,
            0x6f, 0x28, 0x34, 0x1c
        ]
    );
}

#[test]
fn try_sha256_hash_gives_the_digest_where_it_is_text() {
    assert_eq!(try_sha256_hash(READABLE_INPUT), Some(merkle_tree::Hash::new(READABLE_DIGEST)));
}

#[test]
fn try_sha256_hash_gives_nothing_where_the_digest_is_no_text() {
    // SHA-256 of "abc" starts with the byte 0xba, which starts no character.
    assert_eq!(try_sha256_hash("abc"), None);
    // SHA-256 of the empty text starts with 0xe3 0xb0 0xc4, a broken sequence.
    assert_eq!(try_sha256_hash(""), None);
}
