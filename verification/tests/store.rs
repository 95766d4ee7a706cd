//! Storage engine scenarios: the byte-level document codec and the create
//! critical section.

use project_store::models::Project;
use project_store::models::Timestamp;
use project_store::storage::create_in_store;
use project_store::storage::decode_document;
use project_store::storage::encode_document;

fn ts(year: i32, month: u8, day: u8, hour: u8, minute: u8, second: u8, nanosecond: u32) -> Timestamp {
    Timestamp { year, month, day, hour, minute, second, nanosecond }
}

#[test]
fn missing_file_reads_as_empty_document() {
    // A missing or zero-length store file decodes to the empty document.
    let data = decode_document(&[]).expect("empty contents must decode");
    assert_eq!(data.list_desc().len(), 0);
    assert_eq!(data.get_by_id(1), None);
}

#[test]
fn scenario_two_creates_then_list_and_get() {
    let now = ts(2024, 5, 17, 9, 30, 0, 0);
    let empty: Vec<u8> = Vec::new();

    let (bytes1, p1) = create_in_store(&empty, "Alpha", now).expect("first create");
    assert_eq!(p1.id, 1);

    let (bytes2, p2) = create_in_store(&bytes1, "Beta", now).expect("second create");
    assert_eq!(p2.id, 2);

    let data = decode_document(&bytes2).expect("store must decode");
    let listed = data.list_desc();
    let names: Vec<String> = listed.iter().map(|p| p.name.clone()).collect();
    assert_eq!(names, vec!["Beta", "Alpha"]);

    let alpha = data.get_by_id(1).expect("id 1 must be found");
    assert_eq!(alpha, p1);
    assert_eq!(data.get_by_id(3), None);
    assert_eq!(data.get_by_id(0), None);
}

#[test]
fn racing_creates_serialize_to_both_ids() {
    // Two creates racing on the same empty file serialize through the
    // exclusive lock; whichever acquisition order wins, the ids are 1 and 2.
    let now = ts(2023, 1, 1, 0, 0, 0, 0);
    let empty: Vec<u8> = Vec::new();
    let (b1, first) = create_in_store(&empty, "Writer A", now).expect("first create");
    let (b2, second) = create_in_store(&b1, "Writer B", now).expect("second create");
    let data = decode_document(&b2).expect("store must decode");
    assert_eq!(data.list_desc().len(), 2);
    let mut ids = vec![first.id, second.id];
    ids.sort();
    assert_eq!(ids, vec![1, 2]);
}

#[test]
fn round_trip_returns_equal_records() {
    let records = vec![
        Project {
            id: 1,
            name: "First project".to_string(),
            created_at: ts(2019, 1, 2, 12, 34, 56, 123_000_000),
            updated_at: ts(2020, 1, 2, 12, 34, 56, 123_000_000),
            is_active: true,
            archived_at: Some(ts(2021, 1, 2, 12, 34, 56, 123_000_000)),
        },
        Project {
            id: 2,
            name: "Second \u{1F496} project".to_string(),
            created_at: ts(-44, 3, 15, 23, 59, 59, 999_999_999),
            updated_at: ts(2024, 2, 29, 0, 0, 0, 1),
            is_active: false,
            archived_at: None,
        },
    ];
    let data = project_store::storage::ProjectFileStorageData { projects: records };
    let bytes = encode_document(&data).expect("encode");
    let back = decode_document(&bytes).expect("decode");
    assert_eq!(back.projects, data.projects);
}

#[test]
fn corrupted_contents_fail_to_decode() {
    assert!(decode_document(&[1, 2, 3]).is_err());
    let now = ts(2024, 5, 17, 9, 30, 0, 0);
    let (bytes, _) = create_in_store(&[], "Alpha", now).expect("create");
    let mut broken = bytes.clone();
    let last = broken.len() - 10;
    broken[last] ^= 0xff;
    assert!(decode_document(&broken).is_err());
    let mut truncated = bytes.clone();
    truncated.pop();
    assert!(decode_document(&truncated).is_err());
}

#[test]
fn encoding_matches_the_bson_crate() {
    // The store writes genuine BSON: the same document built through the
    // bson crate's own API serializes to the same bytes.
    let records = vec![Project {
        id: 123,
        name: "First project".to_string(),
        created_at: ts(2019, 1, 2, 12, 34, 56, 123_000_000),
        updated_at: ts(2020, 1, 2, 12, 34, 56, 123_000_000),
        is_active: true,
        archived_at: Some(ts(2021, 1, 2, 12, 34, 56, 123_000_000)),
    }];
    let data = project_store::storage::ProjectFileStorageData { projects: records };
    let ours = encode_document(&data).expect("encode");

    let mut entry = bson::Document::new();
    entry.insert("id", bson::Bson::Int64(123));
    entry.insert("name", bson::Bson::String("First project".to_string()));
    entry.insert(
        "created_at",
        bson::Bson::String("+002019-01-02T12:34:56.123000000Z".to_string()),
    );
    entry.insert(
        "updated_at",
        bson::Bson::String("+002020-01-02T12:34:56.123000000Z".to_string()),
    );
    entry.insert("is_active", bson::Bson::Boolean(true));
    entry.insert(
        "archived_at",
        bson::Bson::String("+002021-01-02T12:34:56.123000000Z".to_string()),
    );
    let mut doc = bson::Document::new();
    doc.insert("projects", bson::Bson::Array(vec![bson::Bson::Document(entry)]));
    let theirs = doc.to_vec().expect("bson serialization");

    assert_eq!(ours, theirs);
}

#[test]
fn null_archive_matches_the_bson_crate() {
    let now = ts(2024, 5, 17, 9, 30, 0, 0);
    let (ours, created) = create_in_store(&[], "Alpha", now).expect("create");

    let mut entry = bson::Document::new();
    entry.insert("id", bson::Bson::Int64(1));
    entry.insert("name", bson::Bson::String("Alpha".to_string()));
    entry.insert(
        "created_at",
        bson::Bson::String("+002024-05-17T09:30:00.000000000Z".to_string()),
    );
    entry.insert(
        "updated_at",
        bson::Bson::String("+002024-05-17T09:30:00.000000000Z".to_string()),
    );
    entry.insert("is_active", bson::Bson::Boolean(true));
    entry.insert("archived_at", bson::Bson::Null);
    let mut doc = bson::Document::new();
    doc.insert("projects", bson::Bson::Array(vec![bson::Bson::Document(entry)]));
    let theirs = doc.to_vec().expect("bson serialization");

    assert_eq!(created.id, 1);
    assert_eq!(ours, theirs);
}
