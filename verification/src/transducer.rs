//! The transducer builder of the `fst` crate, as far as this library uses
//! it: created in memory, fed with key-value pairs, and turned into bytes.
//! Nothing in this file is proved; the contracts state what the builder's
//! source shows.

use crate::lex::lex_lt;
use vstd::prelude::*;

verus! {

/// `fst::MapBuilder`, the builder of a transducer that writes to `W`. What
/// is inside is not looked at.
#[verifier::external_type_specification]
#[verifier::external_body]
#[verifier::reject_recursive_types(W)]
pub struct ExMapBuilder<W>(fst::MapBuilder<W>);

/// `fst::Error`, the error of a builder. What is inside is not looked at.
#[verifier::external_type_specification]
#[verifier::external_body]
pub struct ExFstError(fst::Error);

/// The key-value pairs that a builder has accepted, in the order in which
/// they were inserted.
pub uninterp spec fn accepted(builder: fst::MapBuilder<Vec<u8>>) -> Seq<(Seq<u8>, u64)>;

/// The bytes of the transducer that an in-memory builder yields once it has
/// accepted exactly `entries`, in that order.
pub uninterp spec fn map_bytes(entries: Seq<(Seq<u8>, u64)>) -> Seq<u8>;

/// `key` may follow what the builder has accepted: nothing has been
/// accepted yet, or the key accepted last is strictly below it.
pub open spec fn may_follow(entries: Seq<(Seq<u8>, u64)>, key: Seq<u8>) -> bool {
    entries.len() == 0 || lex_lt(entries.last().0, key)
}

/// `fst::MapBuilder::memory`: a builder that writes to a vector in memory
/// and has accepted nothing yet.
#[verifier::external_body]
pub(crate) fn memory_builder() -> (builder: fst::MapBuilder<Vec<u8>>)
    ensures
        accepted(builder) == Seq::<(Seq<u8>, u64)>::empty(),
{
    fst::MapBuilder::memory()
}

/// `fst::MapBuilder::insert` on an in-memory builder. The builder compares
/// the key with the one it accepted last, as byte strings: an equal or
/// smaller key is refused and leaves the builder as it was, a greater one is
/// accepted. Writing to memory does not fail, so nothing else is refused.
#[verifier::external_body]
pub(crate) fn insert_entry(
    builder: &mut fst::MapBuilder<Vec<u8>>,
    key: &[u8],
    value: u64,
) -> (r: Result<(), fst::Error>)
    ensures
        r is Ok <==> may_follow(accepted(*old(builder)), key@),
        r is Ok ==> accepted(*final(builder)) == accepted(*old(builder)).push((key@, value)),
        r is Err ==> accepted(*final(builder)) == accepted(*old(builder)),
{
    builder.insert(key, value)
}

/// `fst::MapBuilder::into_inner` on an in-memory builder: the finished
/// transducer's bytes, which depend on nothing but the pairs accepted.
/// Writing to memory does not fail.
#[verifier::external_body]
pub(crate) fn finish_builder(builder: fst::MapBuilder<Vec<u8>>) -> (r: Result<Vec<u8>, fst::Error>)
    ensures
        r is Ok,
        r matches Ok(bytes) ==> bytes@ == map_bytes(accepted(builder)),
{
    builder.into_inner()
}

} // verus!
