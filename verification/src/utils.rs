use vstd::prelude::*;

verus! {

/// `std::time::Instant`, declared so that it may stand in signatures.
/// Nothing is assumed about it.
#[verifier::external_type_specification]
#[verifier::external_body]
pub struct ExInstant(std::time::Instant);

/// Stands in for a timing log line where none is wanted: does nothing.
pub fn skip_log_time(_now: std::time::Instant, _msg: &str) {
}

/// The number of items each chunk holds when `len` items are spread over
/// `parallelism` workers: the quotient, but at least one.
pub open spec fn spec_chunk_size(len: nat, parallelism: nat) -> nat
    recommends
        parallelism > 0,
{
    if len / parallelism < 1 {
        1
    } else {
        len / parallelism
    }
}

/// Computes the chunk size for `len` items and an explicit parallelism value.
pub fn chunk_size_for(len: usize, parallelism: usize) -> (r: usize)
    requires
        parallelism >= 1,
    ensures
        r as nat == spec_chunk_size(len as nat, parallelism as nat),
        r >= 1,
{
    let q = len / parallelism;
    if q < 1 {
        1
    } else {
        q
    }
}

/// The chunk size for a vector of work items. The parallelism value is
/// passed in explicitly; querying the machine for it is the caller's business.
pub fn get_chunk_size<T>(v: &Vec<T>, parallelism: usize) -> (r: usize)
    requires
        parallelism >= 1,
    ensures
        r as nat == spec_chunk_size(v@.len(), parallelism as nat),
        r >= 1,
{
    chunk_size_for(v.len(), parallelism)
}

} // verus!
