//! The store's global laws, stated over the document model.

use vstd::prelude::*;

use crate::codec;
use crate::models::ProjectV;
use crate::storage;

verus! {

/// In a well-formed document the identifiers are exactly `1..=len`: no
/// duplicates and no gaps.  Concurrent create operations serialize through
/// the exclusive lock, and each assigns the post-append count of its
/// predecessor plus one, so any run of creates on an empty store yields
/// exactly these identifiers.
pub proof fn lemma_ids_unique_and_gapless(d: Seq<ProjectV>)
    requires
        storage::doc_wf(d),
    ensures
        forall|i: int, j: int|
            0 <= i < j < d.len() ==> (#[trigger] d[i]).id != (#[trigger] d[j]).id,
        forall|n: int| #![trigger d[n - 1]] 1 <= n <= d.len() ==> d[n - 1].id == n,
{
}

/// A create on a well-formed document leaves it well-formed: the appended
/// record carries the next identifier.  This is the induction step behind
/// the previous law: any chain of serialized creates starting from the
/// empty store yields a well-formed document, whose identifiers are then
/// exactly `1..=len`.
pub proof fn lemma_create_preserves_wf(d: Seq<ProjectV>, p: ProjectV)
    requires
        storage::doc_wf(d),
        p.id == d.len() + 1,
    ensures
        storage::doc_wf(d.push(p)),
{
}

/// Fetching a record by the identifier it was created under, right after the
/// create, yields that record.
pub proof fn lemma_get_after_create(d: Seq<ProjectV>, p: ProjectV)
    requires
        p.id == d.len() + 1,
    ensures
        1 <= p.id <= d.push(p).len(),
        d.push(p)[p.id - 1] == p,
{
}

/// Listing after a create shows the new record first, followed by the
/// previous listing unchanged.
pub proof fn lemma_list_newest_first(d: Seq<ProjectV>, p: ProjectV)
    ensures
        d.push(p).reverse().len() == d.len() + 1,
        d.push(p).reverse()[0] == p,
        d.push(p).reverse().skip(1) == d.reverse(),
{
    assert(d.push(p).reverse().skip(1) =~= d.reverse());
}

/// The store file's contents determine the document: whatever two readers
/// decode from the same bytes is the same record sequence, so a document
/// written and read back is the document that was written.
pub proof fn lemma_round_trip(bytes: Seq<u8>, d1: Seq<ProjectV>, d2: Seq<ProjectV>)
    requires
        storage::decodes_to(bytes, d1),
        storage::decodes_to(bytes, d2),
    ensures
        d1 == d2,
{
    if bytes.len() != 0 {
        codec::lemma_enc_inj(d1, d2);
    }
}

} // verus!
