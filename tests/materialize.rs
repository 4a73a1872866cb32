use mjolnir::catalog::{
    validate_data_source, validate_data_source_with_index_type, validate_index_type, Catalog,
    ValidationKind,
};
use mjolnir::pipeline::{
    fetch_background_environment, CompatibilityPolicy, Mutation, PipelineError, Query,
};
use mjolnir::status::IndexStatus;
use mjolnir::step::{extract_index_from_step, SourceType, Step, StepType};
use mjolnir::store::{StoreError, Store};

fn catalog() -> Catalog {
    Catalog {
        index_types: vec!["bano".to_string(), "cosmogony".to_string()],
        data_sources: vec!["addresses".to_string(), "osm".to_string()],
        compatibility: vec![
            ("addresses".to_string(), "bano".to_string()),
            ("osm".to_string(), "cosmogony".to_string()),
        ],
    }
}

fn given(id: u128, text: &str) -> Step {
    Step { id, step_type: StepType::Given, value: text.to_string(), docstring: String::new() }
}

fn when(id: u128, text: &str) -> Step {
    Step { id, step_type: StepType::When, value: text.to_string(), docstring: String::new() }
}

#[test]
fn upsert_twice_returns_same_index() {
    let mut store = Store::new();
    let a = extract_index_from_step("bano covering addresses in 75,92").unwrap();
    let b = extract_index_from_step("bano covering addresses in 92,75").unwrap();
    let first = store.upsert_index(&a, 1);
    let second = store.upsert_index(&b, 2);
    assert_eq!(first.id, second.id);
    assert_eq!(first.signature, second.signature);
    assert_eq!(second.created_at, 1);
    assert_eq!(second.status, IndexStatus::NotAvailable);
    assert_eq!(store.indexes.len(), 1);
    let c = extract_index_from_step("bano covering addresses in 75").unwrap();
    let third = store.upsert_index(&c, 3);
    assert_eq!(third.id, 1);
    assert_eq!(store.indexes.len(), 2);
}

#[test]
fn link_creates_environment_and_is_idempotent() {
    let mut store = Store::new();
    let a = extract_index_from_step("bano covering addresses in 75").unwrap();
    let ix = store.upsert_index(&a, 1);
    let env = store.link_index(ix.id, 42, 5).unwrap();
    assert_eq!(env.background, 42);
    assert_eq!(env.indexes, vec![ix.id]);
    assert_eq!(env.status, IndexStatus::NotAvailable);
    let again = store.link_index(ix.id, 42, 6).unwrap();
    assert_eq!(again.indexes, vec![ix.id]);
    assert_eq!(again.id, env.id);
    assert_eq!(again.signature, env.signature);
    assert_eq!(store.environments.len(), 1);
    assert_eq!(store.link_index(7, 42, 7).unwrap_err(), StoreError::UnknownIndex);
}

#[test]
fn validation_checks() {
    let c = catalog();
    assert!(validate_index_type("bano", &c).is_ok());
    assert_eq!(validate_index_type("poi", &c).unwrap_err().kind, ValidationKind::UnknownType);
    assert!(validate_data_source("osm", &c).is_ok());
    assert_eq!(
        validate_data_source("ntfs", &c).unwrap_err().kind,
        ValidationKind::UnknownSource
    );
    assert!(validate_data_source_with_index_type("addresses", "bano", &c).is_ok());
    assert_eq!(
        validate_data_source_with_index_type("osm", "bano", &c).unwrap_err().kind,
        ValidationKind::IncompatiblePair
    );
}

#[test]
fn materialize_three_steps() {
    let mut store = Store::new();
    let steps = vec![
        given(1, "bano covering addresses in 75"),
        given(2, "cosmogony covering osm in france"),
        given(3, "bano covering addresses in 92,75"),
    ];
    let env = fetch_background_environment(
        &mut store,
        &catalog(),
        CompatibilityPolicy::Enforce,
        9,
        &steps,
        100,
    )
    .unwrap();
    assert_eq!(env.indexes, vec![0, 1, 2]);
    assert_eq!(env.status, IndexStatus::NotAvailable);
    assert_eq!(store.indexes.len(), 3);
    let again = fetch_background_environment(
        &mut store,
        &catalog(),
        CompatibilityPolicy::Enforce,
        9,
        &steps,
        200,
    )
    .unwrap();
    assert_eq!(again.indexes, vec![0, 1, 2]);
    assert_eq!(again.signature, env.signature);
    assert_eq!(store.indexes.len(), 3);
    assert_eq!(store.environments.len(), 1);
}

#[test]
fn same_request_twice_gives_one_index() {
    let mut store = Store::new();
    let steps = vec![
        given(1, "bano covering addresses in 75,92"),
        given(2, "bano covering addresses in 92,75"),
    ];
    let env = fetch_background_environment(
        &mut store,
        &catalog(),
        CompatibilityPolicy::Skip,
        1,
        &steps,
        0,
    )
    .unwrap();
    assert_eq!(env.indexes.len(), 1);
    assert_eq!(store.indexes.len(), 1);
}

#[test]
fn fail_fast_stops_at_first_invalid_step() {
    let mut store = Store::new();
    let steps = vec![
        given(1, "bano covering addresses in 75"),
        given(2, "poi covering osm in 75"),
        given(3, "cosmogony covering osm in france"),
    ];
    let r = fetch_background_environment(
        &mut store,
        &catalog(),
        CompatibilityPolicy::Skip,
        1,
        &steps,
        0,
    );
    assert_eq!(
        r.unwrap_err(),
        PipelineError::Validation { step: 1, kind: ValidationKind::UnknownType }
    );
    assert_eq!(store.indexes.len(), 1);
    assert_eq!(store.environments.len(), 1);
    assert_eq!(store.environments[0].indexes, vec![0]);
}

#[test]
fn parse_error_names_the_step() {
    let mut store = Store::new();
    let steps = vec![given(1, "nonsense"), given(2, "bano covering addresses in 75")];
    let r = fetch_background_environment(
        &mut store,
        &catalog(),
        CompatibilityPolicy::Skip,
        1,
        &steps,
        0,
    );
    assert_eq!(r.unwrap_err(), PipelineError::Parse { step: 0 });
    assert_eq!(store.indexes.len(), 0);
}

#[test]
fn compatibility_follows_policy() {
    let steps = vec![given(1, "bano covering osm in 75")];
    let mut store = Store::new();
    let r = fetch_background_environment(
        &mut store,
        &catalog(),
        CompatibilityPolicy::Enforce,
        1,
        &steps,
        0,
    );
    assert_eq!(
        r.unwrap_err(),
        PipelineError::Validation { step: 0, kind: ValidationKind::IncompatiblePair }
    );
    let mut store = Store::new();
    let r = fetch_background_environment(
        &mut store,
        &catalog(),
        CompatibilityPolicy::Skip,
        1,
        &steps,
        0,
    );
    assert_eq!(r.unwrap().indexes.len(), 1);
}

#[test]
fn unknown_source_is_refused() {
    let steps = vec![given(1, "bano covering ntfs in 75")];
    let mut store = Store::new();
    let r = fetch_background_environment(
        &mut store,
        &catalog(),
        CompatibilityPolicy::Skip,
        1,
        &steps,
        0,
    );
    assert_eq!(
        r.unwrap_err(),
        PipelineError::Validation { step: 0, kind: ValidationKind::UnknownSource }
    );
}

#[test]
fn other_steps_are_passed_over() {
    let steps = vec![when(1, "I search for the feature by id"), given(2, "bano covering addresses in 75")];
    let mut store = Store::new();
    let env = fetch_background_environment(
        &mut store,
        &catalog(),
        CompatibilityPolicy::Skip,
        1,
        &steps,
        0,
    )
    .unwrap();
    assert_eq!(env.indexes.len(), 1);
}

#[test]
fn empty_background_gets_empty_environment() {
    let mut store = Store::new();
    let env = Mutation::background_environment(
        &mut store,
        &catalog(),
        CompatibilityPolicy::Skip,
        5,
        &vec![],
        0,
    )
    .unwrap();
    assert!(env.indexes.is_empty());
    assert_eq!(env.status, IndexStatus::Available);
    assert_eq!(env.signature, "d41d8cd98f00b204e9800998ecf8427e");
}

#[test]
fn queries_read_the_store() {
    let mut store = Store::new();
    let steps = vec![given(1, "bano covering addresses in 75")];
    Mutation::background_environment(&mut store, &catalog(), CompatibilityPolicy::Skip, 3, &steps, 0)
        .unwrap();
    let env = store.fetch_environment_of_background(3).unwrap();
    assert_eq!(env.background, 3);
    assert!(store.fetch_environment_of_background(4).is_none());
    assert_eq!(Query::environments(&store).len(), 1);
    let ixs = Query::indexes(&store, env.id);
    assert_eq!(ixs.len(), 1);
    assert_eq!(ixs[0].index_type, "bano");
    assert_eq!(ixs[0].regions, vec!["75".to_string()]);
    assert!(Query::indexes(&store, 9).is_empty());
    assert!(store.fetch_environment_by_id(0).is_some());
    assert!(store.fetch_environment_by_id(1).is_none());
}

#[test]
fn separate_backgrounds_get_separate_environments() {
    let mut store = Store::new();
    let steps = vec![given(1, "bano covering addresses in 75")];
    let a = fetch_background_environment(&mut store, &catalog(), CompatibilityPolicy::Skip, 1, &steps, 0)
        .unwrap();
    let b = fetch_background_environment(&mut store, &catalog(), CompatibilityPolicy::Skip, 2, &steps, 0)
        .unwrap();
    assert_ne!(a.id, b.id);
    assert_eq!(a.indexes, b.indexes);
    assert_eq!(store.indexes.len(), 1);
}

#[test]
fn index_status_moves_update_environments() {
    let mut store = Store::new();
    let steps = vec![
        given(1, "bano covering addresses in 75"),
        given(2, "cosmogony covering osm in france"),
    ];
    fetch_background_environment(&mut store, &catalog(), CompatibilityPolicy::Skip, 1, &steps, 0)
        .unwrap();
    assert_eq!(
        store.set_index_status(0, IndexStatus::Available, 1).unwrap_err(),
        StoreError::IllegalTransition
    );
    assert_eq!(
        store.set_index_status(5, IndexStatus::DownloadInProgress, 1).unwrap_err(),
        StoreError::UnknownIndex
    );
    store.set_index_status(0, IndexStatus::DownloadInProgress, 2).unwrap();
    assert_eq!(store.indexes[0].status, IndexStatus::DownloadInProgress);
    assert_eq!(store.indexes[0].updated_at, 2);
    assert_eq!(store.environments[0].status, IndexStatus::NotAvailable);
    store.set_index_status(1, IndexStatus::DownloadInProgress, 3).unwrap();
    assert_eq!(store.environments[0].status, IndexStatus::DownloadInProgress);
    store.set_index_status(1, IndexStatus::DownloadError, 4).unwrap();
    assert_eq!(store.environments[0].status, IndexStatus::DownloadError);
    store.set_index_status(1, IndexStatus::DownloadInProgress, 5).unwrap();
    store.set_index_status(1, IndexStatus::Downloaded, 6).unwrap();
    assert_eq!(store.environments[0].status, IndexStatus::DownloadInProgress);
}

#[test]
fn query_environment_builds_for_backgrounds_only() {
    let mut store = Store::new();
    let steps = vec![given(1, "bano covering addresses in 75,92")];
    let none = Query::environment(
        &mut store,
        &catalog(),
        CompatibilityPolicy::Enforce,
        8,
        SourceType::Scenario,
        &steps,
        0,
    )
    .unwrap();
    assert!(none.is_none());
    assert!(store.indexes.is_empty());
    let env = Query::environment(
        &mut store,
        &catalog(),
        CompatibilityPolicy::Enforce,
        8,
        SourceType::Background,
        &steps,
        0,
    )
    .unwrap()
    .unwrap();
    assert_eq!(env.indexes.len(), 1);
    let ix = &store.indexes[env.indexes[0]];
    assert_eq!(ix.index_type, "bano");
    assert_eq!(ix.data_source, "addresses");
    assert_eq!(ix.regions, vec!["75".to_string(), "92".to_string()]);
    let again = Query::environment(
        &mut store,
        &catalog(),
        CompatibilityPolicy::Enforce,
        8,
        SourceType::Background,
        &vec![given(2, "bano covering addresses in 92,75")],
        1,
    )
    .unwrap()
    .unwrap();
    assert_eq!(again.id, env.id);
    assert_eq!(again.indexes, env.indexes);
    assert_eq!(again.status, env.status);
    assert_eq!(again.signature, env.signature);
    assert_eq!(store.indexes.len(), 1);
}
