//! In-library repository implementations: the volatile in-memory project
//! repository and the group stub.
//!
//! The durable file-backed project repository lives outside the library: it
//! owns the file handle and the advisory lock, and drives the verified
//! storage core in [`crate::storage`].

use vstd::prelude::*;

use crate::clock;
use crate::models::Group;
use crate::models::Project;
use crate::models::ProjectV;
use crate::ports;
use crate::ports::ProjectRepository;
use crate::result::Error;
use crate::storage::ProjectFileStorageData;

verus! {

/// A volatile project repository: the same identifier-assignment algorithm
/// as the file-backed engine, over an in-memory document.  Callers serialize
/// access through the exclusive reference; nothing is persisted.
pub struct FakeProjectRepository {
    data: ProjectFileStorageData,
}

impl FakeProjectRepository {
    /// An empty in-memory repository.
    pub fn new() -> (r: FakeProjectRepository)
        ensures
            r.repo_view() == Seq::<ProjectV>::empty(),
    {
        FakeProjectRepository { data: ProjectFileStorageData::empty() }
    }
}

impl ports::ProjectRepository for FakeProjectRepository {
    closed spec fn repo_view(&self) -> Seq<ProjectV> {
        self.data@
    }

    fn create(&mut self, data: ports::CreateProjectData<'_>) -> (r: Result<Project, Error>)
        ensures
            r is Ok,
    {
        let now = clock::now_utc();
        Ok(self.data.append_new(data.name.to_owned(), now))
    }

    fn get(&self, id: u64) -> (r: Result<Option<Project>, Error>)
        ensures
            r is Ok,
    {
        Ok(self.data.get_by_id(id))
    }

    fn list(&self) -> (r: Result<Vec<Project>, Error>)
        ensures
            r is Ok,
    {
        Ok(self.data.list_desc())
    }
}

/// The group repository stub: produces a fixed placement and persists
/// nothing.
pub struct GroupRepository {
}

impl GroupRepository {
    pub fn new() -> (r: GroupRepository) {
        GroupRepository {  }
    }
}

impl ports::GroupRepository for GroupRepository {
    fn create(&self, data: ports::CreateGroupData<'_>) -> (r: Result<Group, Error>)
        ensures
            r is Ok,
            r->Ok_0@.id == 1,
            r->Ok_0@.position == 1,
            r->Ok_0@.is_opened,
    {
        Ok(
            Group {
                id: 1,
                name: data.name.to_owned(),
                position: 1,
                is_opened: true,
                project_id: data.project_id,
            },
        )
    }
}

} // verus!
