use vstd::prelude::*;

verus! {

/// A hash function can be called on every text.
pub open spec fn hash_fn_total<F: Fn(&str) -> crate::Hash>(h: F) -> bool {
    forall|text: &str| call_requires(h, (text,))
}

/// The hash function `h` computes `g`: whatever a call of `h` returns reads
/// as the value of `g` on the text that was handed in.
pub open spec fn computes<F: Fn(&str) -> crate::Hash>(
    h: F,
    g: spec_fn(Seq<char>) -> Seq<char>,
) -> bool {
    forall|input: &str, hash: crate::Hash| #[trigger]
        call_ensures(h, (input,), hash) ==> hash@ == g(input@)
}

/// Calls `h` on `text`: the hash is a result of that call, and reads as the
/// value on `text` of every function that `h` computes.
pub(crate) fn apply_hash<F: Fn(&str) -> crate::Hash>(h: &F, text: &str) -> (hash: crate::Hash)
    requires
        hash_fn_total(*h),
    ensures
        call_ensures(*h, (text,), hash),
        forall|g: spec_fn(Seq<char>) -> Seq<char>| #[trigger] computes(*h, g) ==> hash@ == g(text@),
{
    h(text)
}

} // verus!
