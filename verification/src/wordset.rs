//! Finite-state sets of byte strings, backed by `fst::Set`.
//!
//! The index keeps the universe of indexed words, of word prefixes and of
//! external identifiers to delete in finite-state sets. The set is held
//! behind a small trusted interface; `fst_seq` names its contents as the
//! lexicographically ascending sequence of keys.

use vstd::prelude::*;

use crate::seqs::strict_sorted_bytes;

verus! {

#[verifier::external_type_specification]
#[verifier::external_body]
#[verifier::reject_recursive_types(D)]
pub struct ExFstSet<D>(fst::Set<D>);

/// The keys of a finite-state set, in the ascending lexicographic order
/// its streams yield.
pub uninterp spec fn fst_seq(s: fst::Set<Vec<u8>>) -> Seq<Seq<u8>>;

/// Relies on `fst::Set::from_iter`: with keys in strictly increasing
/// lexicographic order the build succeeds and the set holds exactly them.
#[verifier::external_body]
pub fn fst_from_sorted(keys: &Vec<Vec<u8>>) -> (r: fst::Set<Vec<u8>>)
    requires
        strict_sorted_bytes(keys.deep_view()),
    ensures
        fst_seq(r) == keys.deep_view(),
{
    fst::Set::from_iter(keys).unwrap()
}

/// Relies on `fst::Set::contains`.
#[verifier::external_body]
pub fn fst_contains(s: &fst::Set<Vec<u8>>, key: &Vec<u8>) -> (r: bool)
    ensures
        r == fst_seq(*s).contains(key@),
{
    s.contains(key)
}


/// Relies on `fst::set::OpBuilder::difference` streamed back into a
/// `fst::SetBuilder`: the result keeps, in order, exactly the keys of `a`
/// absent from `b`.
#[verifier::external_body]
pub fn fst_difference(a: &fst::Set<Vec<u8>>, b: &fst::Set<Vec<u8>>) -> (r: fst::Set<Vec<u8>>)
    ensures
        strict_sorted_bytes(fst_seq(r)),
        forall|k: Seq<u8>|
            #[trigger] fst_seq(r).contains(k) <==> (fst_seq(*a).contains(k) && !fst_seq(
                *b,
            ).contains(k)),
{
    let mut builder = fst::SetBuilder::memory();
    builder.extend_stream(a.op().add(b).difference()).unwrap();
    builder.into_set()
}

/// Relies on `fst::Set::stream` and `Stream::into_bytes`: keys come out in
/// ascending lexicographic order.
#[verifier::external_body]
pub fn fst_to_vec(s: &fst::Set<Vec<u8>>) -> (r: Vec<Vec<u8>>)
    ensures
        r.deep_view() == fst_seq(*s),
        strict_sorted_bytes(r.deep_view()),
{
    s.stream().into_bytes()
}

} // verus!
