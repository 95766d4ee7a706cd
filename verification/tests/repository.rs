//! Repository behavior: identifier assignment, lookup, and listing order.

use project_store::models::Timestamp;
use project_store::ports::CreateProjectData;
use project_store::ports::CreateGroupData;
use project_store::ports::GroupRepository as GroupRepositoryPort;
use project_store::ports::ProjectRepository;
use project_store::repositories::FakeProjectRepository;
use project_store::repositories::GroupRepository;

#[test]
fn create_project() {
    let mut repo = FakeProjectRepository::new();
    let name = "First project";

    let result = repo
        .create(CreateProjectData { name })
        .expect("Failed to create object");

    assert_eq!(result.name, name);
}

#[test]
fn create_returns_unique_ids() {
    let mut repo = FakeProjectRepository::new();
    let names = vec!["First project", "Second project", "Another project"];
    let names_n = names.len();
    let mut unique_ids: Vec<u64> = Vec::new();

    for name in names {
        let r = repo
            .create(CreateProjectData { name })
            .expect("Failed to create project");
        if !unique_ids.contains(&r.id) {
            unique_ids.push(r.id);
        }
    }

    assert_eq!(names_n, unique_ids.len());
}

#[test]
fn get_by_id() {
    let mut repo = FakeProjectRepository::new();
    let project = repo
        .create(CreateProjectData {
            name: "Project in repository",
        })
        .expect("Failed create project");

    let project_from_repo = repo.get(project.id).expect("Failed to get project");

    assert_eq!(project_from_repo, Some(project));
}

#[test]
fn list_returns_all_projects() {
    let mut repo = FakeProjectRepository::new();
    let names = vec!["First", "Second", "Third"];

    for name in names.iter() {
        repo.create(CreateProjectData { name })
            .expect("Failed create project");
    }

    let projects = repo.list().expect("Failed list projects");
    let project_names = projects.into_iter().map(|p| p.name).collect::<Vec<_>>();

    // The repository contract lists records most recently created first.
    assert_eq!(vec!["Third", "Second", "First"], project_names);
}

#[test]
fn get_from_empty() {
    let repo = FakeProjectRepository::new();
    let project_from_repo = repo.get(1).expect("Failed to get object");
    assert_eq!(project_from_repo, None);
}

#[test]
fn get_zero_is_never_found() {
    let mut repo = FakeProjectRepository::new();
    assert_eq!(repo.get(0).expect("Failed to get object"), None);
    repo.create(CreateProjectData { name: "First project" })
        .expect("Failed to create project");
    assert_eq!(repo.get(0).expect("Failed to get object"), None);
}

#[test]
fn created_timestamp_is_well_formed() {
    let mut repo = FakeProjectRepository::new();
    let p = repo
        .create(CreateProjectData { name: "First project" })
        .expect("Failed to create project");
    let t: Timestamp = p.created_at;
    assert!((1..=12).contains(&t.month));
    assert!(
        (1..=project_store::models::days_in_month(t.year, t.month)).contains(&t.day)
    );
    assert!(t.hour < 24 && t.minute < 60 && t.second < 60);
    assert!(t.nanosecond < 1_000_000_000);
    assert_eq!(p.created_at, p.updated_at);
    assert!(p.is_active);
    assert_eq!(p.archived_at, None);
}

#[test]
fn group_repo_create_one() {
    let repo = GroupRepository::new();
    let name = "First group";
    let project_id = 12;

    let result = repo
        .create(CreateGroupData { name, project_id })
        .expect("Failed to create object");

    assert_eq!(result.name, name);
    assert_eq!(result.project_id, project_id);
}
