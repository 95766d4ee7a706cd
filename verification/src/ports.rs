//! The persistence capability interfaces consumed by the use-case layer.
//!
//! Each capability has interchangeable implementations with the same
//! externally observable contract: the file-backed engine (whose verified
//! core lives in [`crate::storage`]), and the volatile in-memory repository.

use vstd::prelude::*;

use crate::models::Group;
use crate::models::Project;
use crate::models::ProjectV;
use crate::result::Error;

verus! {

/// Input for creating a project; the name's length rule is enforced at the
/// interactor boundary, not here.
pub struct CreateProjectData<'a> {
    pub name: &'a str,
}

/// The project persistence capability: append, point lookup, list.
pub trait ProjectRepository: Sized {
    /// The records currently held, in insertion order.  Implementations
    /// outside the library leave the default in place; it is never used for
    /// reasoning about them.
    open spec fn repo_view(&self) -> Seq<ProjectV> {
        Seq::<ProjectV>::empty()
    }

    /// Appends a record carrying the next identifier (record count plus
    /// one); on failure nothing is persisted.  Repository failures are never
    /// validation errors.
    fn create(&mut self, data: CreateProjectData<'_>) -> (r: Result<Project, Error>)
        requires
            old(self).repo_view().len() < 0x7fff_ffff_ffff_ffff,
        ensures
            r is Ok ==> ({
                &&& r->Ok_0@.id == old(self).repo_view().len() + 1
                &&& r->Ok_0@.name == data.name@
                &&& r->Ok_0@.is_active
                &&& r->Ok_0@.archived_at is None
                &&& r->Ok_0@.created_at == r->Ok_0@.updated_at
                &&& final(self).repo_view() == old(self).repo_view().push(r->Ok_0@)
            }),
            r is Err ==> final(self).repo_view() == old(self).repo_view()
                && !r->Err_0.spec_is_validation(),
    ;

    /// Point lookup by identifier: `0` is never found — answering it takes
    /// no storage access, so it always succeeds — and absence is a valid
    /// empty result, not an error.
    fn get(&self, id: u64) -> (r: Result<Option<Project>, Error>)
        ensures
            id == 0 ==> r is Ok && r->Ok_0 is None,
            r is Ok ==> ({
                &&& id == 0 ==> r->Ok_0 is None
                &&& id > self.repo_view().len() ==> r->Ok_0 is None
                &&& 1 <= id <= self.repo_view().len() ==> r->Ok_0 is Some && r->Ok_0->0@
                    == self.repo_view()[id - 1]
            }),
            r is Err ==> !r->Err_0.spec_is_validation(),
    ;

    /// All records, most recently created first.
    fn list(&self) -> (r: Result<Vec<Project>, Error>)
        ensures
            r is Ok ==> crate::codec::views_of(r->Ok_0@) == self.repo_view().reverse(),
            r is Err ==> !r->Err_0.spec_is_validation(),
    ;
}

/// Input for creating a group within a project.
pub struct CreateGroupData<'a> {
    pub name: &'a str,
    pub project_id: u64,
}

/// The group persistence capability (currently served by a stub).
pub trait GroupRepository: Sized {
    /// Produces a group record for the given input.
    fn create(&self, data: CreateGroupData<'_>) -> (r: Result<Group, Error>)
        ensures
            r is Ok ==> r->Ok_0@.name == data.name@ && r->Ok_0@.project_id == data.project_id,
            r is Err ==> !r->Err_0.spec_is_validation(),
    ;
}

} // verus!
