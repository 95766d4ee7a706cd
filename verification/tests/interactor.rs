//! Interactor behavior: validation in front of the repository.

use project_store::interactors::ProjectInteractor;
use project_store::interactors::GroupInteractor;
use project_store::repositories::FakeProjectRepository;
use project_store::repositories::GroupRepository;
use project_store::result::Error;

#[test]
fn valid_name_creates_project() {
    let mut interactor = ProjectInteractor::new(FakeProjectRepository::new());
    let p = interactor.create("Alpha").expect("Failed to create project");
    assert_eq!(p.name, "Alpha");
    assert_eq!(p.id, 1);
}

#[test]
fn three_characters_is_the_boundary() {
    let mut interactor = ProjectInteractor::new(FakeProjectRepository::new());
    assert!(interactor.create("abc").is_ok());
    assert!(interactor.create("ab").is_err());
}

#[test]
fn short_name_fails_validation_and_persists_nothing() {
    let mut interactor = ProjectInteractor::new(FakeProjectRepository::new());
    interactor.create("Alpha").expect("Failed to create project");
    let before = interactor.list().expect("Failed to list").len();

    let r = interactor.create("ab");
    match r {
        Err(e) => assert!(e.is_validation()),
        Ok(_) => panic!("a two-character name must fail validation"),
    }

    let after = interactor.list().expect("Failed to list").len();
    assert_eq!(before, after);
}

#[test]
fn validation_error_carries_field_and_message() {
    let e = Error::validation("name", "Must be at least 3 character long");
    assert!(e.is_validation());
    assert_eq!(e.message().as_str(), "Must be at least 3 character long");
    let u = Error::unknown("Failed to read document");
    assert!(!u.is_validation());
    assert_eq!(u.message().as_str(), "Failed to read document");
}

#[test]
fn list_counts_successful_creates() {
    let mut interactor = ProjectInteractor::new(FakeProjectRepository::new());
    let mut expected: usize = 0;
    for name in ["One", "ab", "Two", "x", "Three"] {
        if interactor.create(name).is_ok() {
            expected += 1;
        }
    }
    assert_eq!(interactor.list().expect("Failed to list").len(), expected);
}

#[test]
fn group_interactor_delegates() {
    let interactor = GroupInteractor::new(GroupRepository::new());
    let g = interactor.create("First group", 12).expect("Failed to create object");
    assert_eq!(g.name, "First group");
    assert_eq!(g.project_id, 12);
    assert_eq!(g.id, 1);
    assert_eq!(g.position, 1);
    assert!(g.is_opened);
}
