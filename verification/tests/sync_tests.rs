use si::cache::{CacheDirEntry, SnapshotDir};
use si::catalog::ModelIndex;
use si::models::{ModelFile, ModelInfo};
use si::sync::sync_models;

fn mf(size: u64, path: &str) -> ModelFile {
    ModelFile {
        size,
        path: path.to_string(),
    }
}

fn candidate_entry(name: &str, resolved: Vec<ModelFile>) -> CacheDirEntry {
    CacheDirEntry {
        name: name.to_string(),
        is_dir: true,
        has_refs: true,
        snapshots: Some(vec![SnapshotDir { files: vec![] }]),
        resolved_files: resolved,
    }
}

#[test]
fn test_sync_empty_cache_empty_catalog() {
    // Empty cache root, empty catalog: no discrepancies, one closing line.
    let mut index = ModelIndex::new(None);
    let entries: Vec<CacheDirEntry> = vec![];

    let report = sync_models(&mut index, &entries, false);

    assert_eq!(report.discrepancies_count(), 0);
    assert_eq!(report.messages(), &vec!["All models are in sync!".to_string()]);
    assert!(index.contents().is_none());
}

#[test]
fn test_sync_adds_unindexed_model_and_settles() {
    // One valid candidate directory with files of 100 and 20 bytes, empty
    // catalog: the first run adds one record with those files, the second
    // finds nothing left to do.
    let mut index = ModelIndex::new(None);
    let entries = vec![candidate_entry(
        "models--acme--model-a",
        vec![mf(100, "/cache/config.json"), mf(20, "/cache/model.bin")],
    )];

    let report = sync_models(&mut index, &entries, false);

    assert_eq!(report.discrepancies_count(), 1);
    assert_eq!(report.added_to_index(), &vec!["acme/model-a".to_string()]);
    assert!(report.missing_locally().is_empty());
    assert_eq!(
        report.messages(),
        &vec![
            "Found local model 'acme/model-a' not in index".to_string(),
            "Added 'acme/model-a' to index".to_string(),
        ]
    );

    let models = index.models().expect("catalog parses after the sync wrote it");
    assert_eq!(models.len(), 1);
    assert_eq!(models[0].model_id, "acme/model-a");
    assert_eq!(models[0].files.len(), 2);
    assert_eq!(models[0].files[0].size, 100);
    assert_eq!(models[0].files[1].size, 20);

    let second = sync_models(&mut index, &entries, false);
    assert_eq!(second.discrepancies_count(), 0);
    assert_eq!(second.messages(), &vec!["All models are in sync!".to_string()]);
}

#[test]
fn test_sync_dry_run_reports_missing_and_keeps_catalog() {
    // Catalog holds one record, cache root is empty: a dry run reports
    // exactly one missing-locally entry and leaves the catalog untouched.
    let mut index = ModelIndex::new(None);
    index
        .add_model(ModelInfo::new("acme/model-b".to_string(), vec![]))
        .expect("seeding the catalog succeeds");
    let before = index.contents().clone();

    let entries: Vec<CacheDirEntry> = vec![];
    let report = sync_models(&mut index, &entries, true);

    assert_eq!(report.discrepancies_count(), 1);
    assert_eq!(report.missing_locally(), &vec!["acme/model-b".to_string()]);
    assert!(report.added_to_index().is_empty());
    assert_eq!(
        report.messages(),
        &vec!["Model 'acme/model-b' in index but missing in HF cache".to_string()]
    );
    assert_eq!(index.contents(), &before);
}

#[test]
fn test_sync_dry_run_never_mutates_catalog() {
    // Even with work to do, a dry run records it without touching the
    // document.
    let mut index = ModelIndex::new(None);
    let entries = vec![candidate_entry(
        "models--acme--model-a",
        vec![mf(1, "/cache/f")],
    )];

    let report = sync_models(&mut index, &entries, true);

    assert_eq!(report.added_to_index(), &vec!["acme/model-a".to_string()]);
    assert_eq!(
        report.messages(),
        &vec!["Found local model 'acme/model-a' not in index".to_string()]
    );
    assert!(index.contents().is_none());
    assert!(index.models().expect("catalog still loads as empty").is_empty());
}

#[test]
fn test_sync_swallows_malformed_catalog() {
    // A malformed catalog document never fails a sync; the run proceeds as
    // if the catalog were empty.
    let mut malformed = ModelIndex::new(Some("{ invalid json }".to_string()));
    let mut empty = ModelIndex::new(None);
    let entries = vec![candidate_entry(
        "models--acme--model-a",
        vec![mf(5, "/cache/f")],
    )];

    let report_malformed = sync_models(&mut malformed, &entries, false);
    let report_empty = sync_models(&mut empty, &entries, false);

    assert_eq!(report_malformed.messages(), report_empty.messages());
    assert_eq!(report_malformed.added_to_index(), report_empty.added_to_index());
    assert_eq!(report_malformed.missing_locally(), report_empty.missing_locally());
    assert_eq!(
        report_malformed.discrepancies_count(),
        report_empty.discrepancies_count()
    );
    // The repaired catalog holds the reconstructed record.
    let models = malformed.models().expect("rewritten catalog parses");
    assert_eq!(models.len(), 1);
    assert_eq!(models[0].model_id, "acme/model-a");
}

#[test]
fn test_sync_malformed_catalog_dry_run_keeps_text() {
    // A dry run over a malformed document reports as if empty and leaves
    // the malformed text exactly as it was.
    let mut index = ModelIndex::new(Some("not a document".to_string()));
    let entries: Vec<CacheDirEntry> = vec![];

    let report = sync_models(&mut index, &entries, true);

    assert_eq!(report.discrepancies_count(), 0);
    assert_eq!(report.messages(), &vec!["All models are in sync!".to_string()]);
    assert_eq!(index.contents().as_deref(), Some("not a document"));
}

#[test]
fn test_sync_failed_reconstruction_is_isolated() {
    // A candidate that scans but yields no files at all fails
    // reconstruction; the failure is logged and the run continues with the
    // next candidate.
    let mut index = ModelIndex::new(None);
    let entries = vec![
        candidate_entry("models--acme--model-a", vec![]),
        candidate_entry("models--other--repo", vec![mf(2, "/cache/y")]),
    ];

    let report = sync_models(&mut index, &entries, false);

    assert_eq!(report.added_to_index(), &vec!["other/repo".to_string()]);
    assert_eq!(
        report.messages(),
        &vec![
            "Found local model 'acme/model-a' not in index".to_string(),
            "Failed to add 'acme/model-a' to index: No model files found in HF cache for model 'acme/model-a'".to_string(),
            "Found local model 'other/repo' not in index".to_string(),
            "Added 'other/repo' to index".to_string(),
        ]
    );

    let models = index.models().expect("catalog parses");
    assert_eq!(models.len(), 1);
    assert_eq!(models[0].model_id, "other/repo");
}

#[test]
fn test_sync_indexed_and_present_in_sync() {
    // A record both in the catalog and in the cache needs no work.
    let mut index = ModelIndex::new(None);
    index
        .add_model(ModelInfo::new("acme/model-a".to_string(), vec![mf(1, "f")]))
        .expect("seeding the catalog succeeds");
    let before = index.contents().clone();
    let entries = vec![candidate_entry(
        "models--acme--model-a",
        vec![mf(1, "f")],
    )];

    let report = sync_models(&mut index, &entries, false);

    assert_eq!(report.discrepancies_count(), 0);
    assert_eq!(report.messages(), &vec!["All models are in sync!".to_string()]);
    assert_eq!(index.contents(), &before);
}
