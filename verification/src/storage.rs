//! The file storage engine's verified core: the in-memory document, the
//! identifier-assignment discipline, and the byte-level load and save steps.
//!
//! The surrounding file handling (open, advisory locks, read, write, unlock
//! on every exit path) is ordinary Rust outside the library; it hands whole
//! file contents in and receives whole file contents back.

use vstd::prelude::*;

use crate::codec;
use crate::models::Project;
use crate::models::ProjectV;
use crate::models::Timestamp;
use crate::result::Error;

verus! {

/// The document invariant: the record at zero-based position `k` always
/// carries `id == k + 1`; `0` is never a valid identifier.
pub open spec fn doc_wf(d: Seq<ProjectV>) -> bool {
    forall|k: int| 0 <= k < d.len() ==> (#[trigger] d[k]).id == k + 1
}

/// What `bytes` must be for the store to read the document `d` from them:
/// an empty file reads as the empty document, anything else as the exact
/// encoding.
pub open spec fn decodes_to(bytes: Seq<u8>, d: Seq<ProjectV>) -> bool {
    if bytes.len() == 0 {
        d == Seq::<ProjectV>::empty()
    } else {
        codec::enc_at(bytes, d)
    }
}

/// The record that a create operation appends to a document that holds `n`
/// records.
pub open spec fn spec_new_project(n: int, name: Seq<char>, now: Timestamp) -> ProjectV {
    ProjectV {
        id: (n + 1) as u64,
        name,
        created_at: now,
        updated_at: now,
        is_active: true,
        archived_at: Option::None,
    }
}

/// The on-disk aggregate: one ordered sequence of project records.
pub struct ProjectFileStorageData {
    pub projects: Vec<Project>,
}

impl View for ProjectFileStorageData {
    type V = Seq<ProjectV>;

    open spec fn view(&self) -> Seq<ProjectV> {
        codec::views_of(self.projects@)
    }
}

impl ProjectFileStorageData {
    /// Whether the document invariant holds.
    pub open spec fn wf(&self) -> bool {
        doc_wf(self@)
    }

    /// The empty document, as read from a missing or zero-length file.
    pub fn empty() -> (r: ProjectFileStorageData)
        ensures
            r@ == Seq::<ProjectV>::empty(),
            r.wf(),
    {
        let r = ProjectFileStorageData { projects: Vec::new() };
        proof {
            assert(r@ =~= Seq::<ProjectV>::empty());
        }
        r
    }

    /// Appends a new record under the exclusive lock: its identifier is the
    /// current record count plus one.
    pub fn append_new(&mut self, name: String, now: Timestamp) -> (p: Project)
        requires
            old(self)@.len() < 0x7fff_ffff_ffff_ffff,
        ensures
            p@ == spec_new_project(old(self)@.len() as int, name@, now),
            final(self)@ == old(self)@.push(p@),
            old(self).wf() ==> final(self).wf(),
    {
        let id: u64 = self.projects.len() as u64 + 1;
        let stored = Project {
            id,
            name: name.clone(),
            created_at: now,
            updated_at: now,
            is_active: true,
            archived_at: Option::None,
        };
        let returned = Project {
            id,
            name,
            created_at: now,
            updated_at: now,
            is_active: true,
            archived_at: Option::None,
        };
        self.projects.push(stored);
        proof {
            assert(self@ =~= old(self)@.push(returned@));
            if doc_wf(old(self)@) {
                assert(doc_wf(self@));
            }
        }
        returned
    }

    /// Point lookup by identifier: `0` is never found, and an identifier
    /// beyond the record count is not found; otherwise the record at
    /// position `id - 1` comes back.
    pub fn get_by_id(&self, id: u64) -> (r: Option<Project>)
        ensures
            id == 0 ==> r is None,
            id > self@.len() ==> r is None,
            1 <= id <= self@.len() ==> r is Some && r->0@ == self@[id - 1],
    {
        if id == 0 {
            return None;
        }
        if id > self.projects.len() as u64 {
            return None;
        }
        let k: usize = (id - 1) as usize;
        let p: &Project = vstd::slice::slice_index_get(self.projects.as_slice(), k);
        Some(p.duplicate())
    }

    /// All records, most recently created first.
    pub fn list_desc(&self) -> (r: Vec<Project>)
        ensures
            r@.len() == self@.len(),
            forall|k: int|
                0 <= k < r@.len() ==> (#[trigger] r@[k])@ == self@[self@.len() - 1 - k],
            codec::views_of(r@) == self@.reverse(),
    {
        let n: usize = self.projects.len();
        let mut out: Vec<Project> = Vec::new();
        let mut k: usize = 0;
        while k < n
            invariant
                n == self.projects@.len(),
                k <= n,
                out@.len() == k,
                forall|j: int| 0 <= j < k ==> (#[trigger] out@[j])@ == self@[n - 1 - j],
            decreases n - k,
        {
            let p: &Project = vstd::slice::slice_index_get(self.projects.as_slice(), n - 1 - k);
            out.push(p.duplicate());
            k = k + 1;
        }
        proof {
            assert(codec::views_of(out@) =~= self@.reverse());
        }
        out
    }
}

/// Decodes whole file contents: a zero-length file is the empty document;
/// anything else must be exactly an encoded document.
pub fn decode_document(bytes: &[u8]) -> (r: Result<ProjectFileStorageData, Error>)
    ensures
        bytes@.len() == 0 ==> r is Ok && r->Ok_0@ == Seq::<ProjectV>::empty(),
        r is Ok ==> decodes_to(bytes@, r->Ok_0@),
        r is Err ==> forall|d: Seq<ProjectV>| !codec::enc_at(bytes@, d),
        r is Err ==> r->Err_0 is Unknown,
{
    if bytes.len() == 0 {
        return Ok(ProjectFileStorageData::empty());
    }
    match codec::decode_projects(bytes) {
        Ok(v) => {
            proof {
                assert(codec::enc_fits(codec::views_of(v@)));
            }
            Ok(ProjectFileStorageData { projects: v })
        },
        Err(e) => Err(e),
    }
}

/// Encodes the document for a full rewrite of the file from offset zero.
pub fn encode_document(data: &ProjectFileStorageData) -> (r: Result<Vec<u8>, Error>)
    ensures
        r is Ok <==> codec::ids_ok(data@) && codec::enc_fits(data@),
        r is Ok ==> r->Ok_0@ == codec::enc(data@),
        r is Err ==> r->Err_0 is Unknown,
{
    codec::encode_projects(&data.projects)
}

/// Two documents that the same bytes decode to are the same document.
proof fn lemma_store_pin(bytes: Seq<u8>, d0: Seq<ProjectV>, d: Seq<ProjectV>)
    requires
        decodes_to(bytes, d0),
        decodes_to(bytes, d),
    ensures
        d0 == d,
{
    if bytes.len() != 0 {
        codec::lemma_enc_inj(d0, d);
    }
}

/// The create operation's critical section, from whole file contents to
/// whole file contents: decode, assign the next identifier, append, and
/// re-encode.
#[verifier::rlimit(100)]
#[verifier::spinoff_prover]
pub fn create_in_store(bytes: &[u8], name: &str, now: Timestamp) -> (r: Result<
    (Vec<u8>, Project),
    Error,
>)
    ensures
        r is Ok ==> (exists|d: Seq<ProjectV>|
            {
                let p = spec_new_project(d.len() as int, name@, now);
                &&& #[trigger] decodes_to(bytes@, d)
                &&& r->Ok_0.1@ == p
                &&& r->Ok_0.0@ == codec::enc(d.push(p))
            }),
        r is Err ==> (forall|d: Seq<ProjectV>|
            #[trigger] decodes_to(bytes@, d) ==> ({
                let p = spec_new_project(d.len() as int, name@, now);
                !(codec::ids_ok(d.push(p)) && codec::enc_fits(d.push(p)))
            })),
        r is Err ==> r->Err_0 is Unknown,
{
    let mut data: ProjectFileStorageData = match decode_document(bytes) {
        Ok(v) => v,
        Err(e) => {
            return Err(e);
        },
    };
    let ghost d0 = data@;
    if data.projects.len() as u64 >= 0x7fff_ffff_ffff_ffffu64 {
        proof {
            assert forall|d: Seq<ProjectV>| #[trigger] decodes_to(bytes@, d) implies ({
                let p = spec_new_project(d.len() as int, name@, now);
                !(codec::ids_ok(d.push(p)) && codec::enc_fits(d.push(p)))
            }) by {
                lemma_store_pin(bytes@, d0, d);
                let p = spec_new_project(d.len() as int, name@, now);
                codec::lemma_enc_count(d.push(p));
            }
        }
        return Err(Error::unknown("the store is full"));
    }
    let p: Project = data.append_new(name.to_owned(), now);
    proof {
        assert(decodes_to(bytes@, d0));
        assert(p@ == spec_new_project(d0.len() as int, name@, now));
        assert(data@ == d0.push(p@));
    }
    match encode_document(&data) {
        Ok(out) => Ok((out, p)),
        Err(e) => {
            proof {
                assert forall|d: Seq<ProjectV>| #[trigger] decodes_to(bytes@, d) implies ({
                    let q = spec_new_project(d.len() as int, name@, now);
                    !(codec::ids_ok(d.push(q)) && codec::enc_fits(d.push(q)))
                }) by {
                    lemma_store_pin(bytes@, d0, d);
                }
            }
            Err(e)
        },
    }
}

} // verus!
