use vstd::prelude::*;

use rand::RngCore;
use rand::seq::SliceRandom;

verus! {

/// Relies on rand::rngs::OsRng (`RngCore::fill_bytes`): fills a buffer of
/// `n` bytes from the operating system's entropy source. Nothing is promised
/// about the values drawn.
#[verifier::external_body]
pub(crate) fn random_bytes(n: usize) -> (r: Vec<u8>)
    ensures
        r@.len() == n,
{
    let mut buf = vec![0u8; n];
    rand::rngs::OsRng.fill_bytes(&mut buf);
    buf
}

/// Relies on rand::seq::SliceRandom (`shuffle` with rand::rngs::OsRng):
/// reorders the elements in place by swaps, so the multiset of elements
/// (and hence the length) is unchanged.
#[verifier::external_body]
pub(crate) fn shuffle_rows(rows: &mut Vec<Vec<u8>>)
    ensures
        crate::blocks::row_views(final(rows)@).to_multiset() == crate::blocks::row_views(
            old(rows)@,
        ).to_multiset(),
        final(rows)@.len() == old(rows)@.len(),
{
    rows.shuffle(&mut rand::rngs::OsRng);
}

} // verus!
