//! The use-case layer: input validation in front of a repository.

use vstd::prelude::*;
use vstd::string::StrSliceExecFns;

use crate::models::Group;
use crate::models::Project;
use crate::models::ProjectV;
use crate::ports;
use crate::result::Error;

verus! {

/// Validates caller input, then delegates to a project repository; owns no
/// state beyond the repository itself.
pub struct ProjectInteractor<R: ports::ProjectRepository> {
    project_repository: R,
}

impl<R: ports::ProjectRepository> ProjectInteractor<R> {
    /// The records the underlying repository holds, in insertion order.
    pub closed spec fn projects(&self) -> Seq<ProjectV> {
        self.project_repository.repo_view()
    }

    pub fn new(project_repository: R) -> (r: ProjectInteractor<R>)
        ensures
            r.projects() == project_repository.repo_view(),
    {
        ProjectInteractor { project_repository }
    }

    /// Creates a project after checking that the name has at least three
    /// characters; a too-short name fails with a validation error and
    /// nothing is persisted.  A repository failure is passed on unchanged in
    /// kind, never downgraded to a validation error.
    pub fn create(&mut self, name: &str) -> (r: Result<Project, Error>)
        requires
            old(self).projects().len() < 0x7fff_ffff_ffff_ffff,
        ensures
            name@.len() < 3 <==> r is Err && r->Err_0.spec_is_validation(),
            name@.len() < 3 ==> final(self).projects() == old(self).projects(),
            r is Err ==> final(self).projects() == old(self).projects(),
            r is Ok ==> ({
                &&& r->Ok_0@.name == name@
                &&& r->Ok_0@.id == old(self).projects().len() + 1
                &&& r->Ok_0@.is_active
                &&& r->Ok_0@.archived_at is None
                &&& r->Ok_0@.created_at == r->Ok_0@.updated_at
                &&& final(self).projects() == old(self).projects().push(r->Ok_0@)
            }),
    {
        if name.unicode_len() < 3 {
            return Err(Error::validation("name", "Must be at least 3 character long"));
        }
        self.project_repository.create(ports::CreateProjectData { name })
    }

    /// Pure delegation: all records, most recently created first.
    pub fn list(&self) -> (r: Result<Vec<Project>, Error>)
        ensures
            r is Ok ==> crate::codec::views_of(r->Ok_0@) == self.projects().reverse(),
            r is Err ==> !r->Err_0.spec_is_validation(),
    {
        self.project_repository.list()
    }
}

/// Delegates group creation to a group repository; no validation rule is
/// declared for groups yet.
pub struct GroupInteractor<G: ports::GroupRepository> {
    group_repository: G,
}

impl<G: ports::GroupRepository> GroupInteractor<G> {
    pub fn new(group_repository: G) -> (r: GroupInteractor<G>) {
        GroupInteractor { group_repository }
    }

    /// Pure delegation to the repository.
    pub fn create(&self, name: &str, project_id: u64) -> (r: Result<Group, Error>)
        ensures
            r is Ok ==> r->Ok_0@.name == name@ && r->Ok_0@.project_id == project_id,
            r is Err ==> !r->Err_0.spec_is_validation(),
    {
        self.group_repository.create(ports::CreateGroupData { name, project_id })
    }
}

/// The application's composed state: one interactor per entity type,
/// assembled once at startup and handed down by reference.
pub struct AppState<R: ports::ProjectRepository, G: ports::GroupRepository> {
    pub project_interactor: ProjectInteractor<R>,
    pub group_interactor: GroupInteractor<G>,
}

} // verus!
