//! Declarations for the one outside collection the engine keeps: the short
//! inline vector that carries the defining crates of a type. A type's
//! inherent impls can live in at most two crates (for the primitives, the
//! core and alloc parts of the standard library), so the collection is a
//! stack-allocated vector with room for two crate ids.

use vstd::prelude::*;

use crate::ids::CrateId;

verus! {

/// The defining-crates vector: a stack-allocated `arrayvec::ArrayVec` with
/// room for two crate ids, held in a field this crate's proofs never look
/// inside — everything known of it comes from [`crate_list_view`] and the
/// wrappers below.
#[verifier::external_body]
pub struct CrateList {
    inner: arrayvec::ArrayVec<[u32; 2]>,
}

/// What a defining-crates vector holds, in order.
pub uninterp spec fn crate_list_view(v: CrateList) -> Seq<u32>;

/// Relies on `arrayvec::ArrayVec::new`: a freshly made vector is empty.
#[verifier::external_body]
pub fn crate_list_new() -> (r: CrateList)
    ensures
        crate_list_view(r) == Seq::<u32>::empty(),
{
    CrateList { inner: arrayvec::ArrayVec::new() }
}

/// Relies on `arrayvec::ArrayVec::push`: appends one element at the end; it
/// panics when the vector is full, so a push needs room.
#[verifier::external_body]
pub fn crate_list_push(v: &mut CrateList, x: u32)
    requires
        crate_list_view(*old(v)).len() < 2,
    ensures
        crate_list_view(*final(v)) == crate_list_view(*old(v)).push(x),
{
    v.inner.push(x)
}

/// Relies on `arrayvec::ArrayVec::iter` handing the elements out in order;
/// each is converted to a [`CrateId`].
#[verifier::external_body]
pub fn crate_list_items(v: &CrateList) -> (r: Vec<CrateId>)
    ensures
        r@.len() == crate_list_view(*v).len(),
        forall|i: int| 0 <= i < r@.len() ==> r@[i] == CrateId(crate_list_view(*v)[i]),
{
    v.inner.iter().map(|x| CrateId(*x)).collect()
}

/// Relies on `String`'s `FromIterator` impl: collecting characters builds
/// the string of exactly those characters, in order.
#[verifier::external_body]
pub fn chars_to_string(v: &Vec<char>) -> (r: String)
    ensures
        r@ == v@,
{
    v.iter().collect()
}

} // verus!
