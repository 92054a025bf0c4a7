use si::cache::{
    CacheDirEntry, ReconstructError, SnapshotDir, common_model_filenames,
    extract_model_id_from_hf_cache_path, find_hf_cache_directory, hf_cache_dir_name,
    is_likely_hf_model_cache, reconstruct_model_info_from_cache, scan_hf_cache,
};
use si::models::ModelFile;

fn mf(size: u64, path: &str) -> ModelFile {
    ModelFile {
        size,
        path: path.to_string(),
    }
}

fn candidate_entry(name: &str, resolved: Vec<ModelFile>, snapshots: Vec<SnapshotDir>) -> CacheDirEntry {
    CacheDirEntry {
        name: name.to_string(),
        is_dir: true,
        has_refs: true,
        snapshots: Some(snapshots),
        resolved_files: resolved,
    }
}

#[test]
fn test_extract_model_id_from_hf_cache_path() {
    let model_id = extract_model_id_from_hf_cache_path("models--microsoft--DialoGPT-medium");
    assert_eq!(model_id, "microsoft/DialoGPT-medium");

    let model_id = extract_model_id_from_hf_cache_path("not-a-model-dir");
    assert_eq!(model_id, "");
}

#[test]
fn test_extract_model_id_edge_names() {
    assert_eq!(extract_model_id_from_hf_cache_path(""), "");
    assert_eq!(extract_model_id_from_hf_cache_path("models"), "");
    assert_eq!(extract_model_id_from_hf_cache_path("models--only-one-part"), "");
    assert_eq!(extract_model_id_from_hf_cache_path("models--a--b"), "a/b");
    // A fourth segment means the name does not split into exactly three
    // parts, so it does not parse.
    assert_eq!(extract_model_id_from_hf_cache_path("models--a--b--c"), "");
}

#[test]
fn test_hf_cache_dir_name() {
    assert_eq!(hf_cache_dir_name("acme/model-a"), "models--acme--model-a");
    assert_eq!(
        hf_cache_dir_name("microsoft/DialoGPT-medium"),
        "models--microsoft--DialoGPT-medium"
    );
    // The two directions agree on well-formed identifiers.
    assert_eq!(
        extract_model_id_from_hf_cache_path(&hf_cache_dir_name("acme/model-a")),
        "acme/model-a"
    );
}

#[test]
fn test_is_likely_hf_model_cache() {
    let with_structure = candidate_entry(
        "test_cache",
        vec![],
        vec![SnapshotDir { files: vec![] }],
    );
    assert!(is_likely_hf_model_cache(&with_structure));

    let empty_dir = CacheDirEntry {
        name: "empty".to_string(),
        is_dir: true,
        has_refs: false,
        snapshots: None,
        resolved_files: vec![],
    };
    assert!(!is_likely_hf_model_cache(&empty_dir));

    let no_snapshot_subdir = CacheDirEntry {
        name: "test_cache".to_string(),
        is_dir: true,
        has_refs: true,
        snapshots: Some(vec![]),
        resolved_files: vec![],
    };
    assert!(!is_likely_hf_model_cache(&no_snapshot_subdir));

    let refs_missing = CacheDirEntry {
        name: "test_cache".to_string(),
        is_dir: true,
        has_refs: false,
        snapshots: Some(vec![SnapshotDir { files: vec![] }]),
        resolved_files: vec![],
    };
    assert!(!is_likely_hf_model_cache(&refs_missing));
}

#[test]
fn test_scan_hf_cache_filters_and_dedups() {
    let entries = vec![
        candidate_entry("models--acme--model-a", vec![], vec![SnapshotDir { files: vec![] }]),
        // A plain file at the cache root is skipped.
        CacheDirEntry {
            name: "models--acme--model-b".to_string(),
            is_dir: false,
            has_refs: true,
            snapshots: Some(vec![SnapshotDir { files: vec![] }]),
            resolved_files: vec![],
        },
        // A hidden directory is skipped.
        candidate_entry(".hidden", vec![], vec![SnapshotDir { files: vec![] }]),
        // A directory without the candidate structure is skipped.
        CacheDirEntry {
            name: "models--acme--model-c".to_string(),
            is_dir: true,
            has_refs: false,
            snapshots: None,
            resolved_files: vec![],
        },
        // A candidate whose name does not parse is excluded.
        candidate_entry("not-a-model-dir", vec![], vec![SnapshotDir { files: vec![] }]),
        // A name with a fourth segment does not parse either.
        candidate_entry(
            "models--acme--model-a--extra",
            vec![],
            vec![SnapshotDir { files: vec![] }],
        ),
        // A second entry for an already-seen identifier is not repeated.
        candidate_entry("models--acme--model-a", vec![], vec![SnapshotDir { files: vec![] }]),
        candidate_entry("models--other--repo", vec![], vec![SnapshotDir { files: vec![] }]),
    ];

    let ids = scan_hf_cache(&entries);
    assert_eq!(ids, vec!["acme/model-a".to_string(), "other/repo".to_string()]);
}

#[test]
fn test_scan_hf_cache_empty() {
    let ids = scan_hf_cache(&vec![]);
    assert!(ids.is_empty());
}

#[test]
fn test_find_hf_cache_directory() {
    let entries = vec![candidate_entry(
        "models--acme--model-a",
        vec![],
        vec![SnapshotDir { files: vec![] }],
    )];

    let found = find_hf_cache_directory("acme/model-a", &entries);
    assert_eq!(found, Ok(0));

    let missing = find_hf_cache_directory("microsoft/DialoGPT-medium", &entries);
    let err = missing.expect_err("unknown identifier has no cache directory");
    assert!(err
        .message("microsoft/DialoGPT-medium")
        .contains("Could not find HF cache directory"));
}

#[test]
fn test_reconstruct_uses_resolved_files() {
    let entries = vec![candidate_entry(
        "models--acme--model-a",
        vec![mf(100, "/cache/config.json"), mf(20, "/cache/model.bin")],
        vec![SnapshotDir {
            files: vec![mf(999, "/cache/snapshots/h/ignored.bin")],
        }],
    )];

    let info = reconstruct_model_info_from_cache("acme/model-a", &entries)
        .expect("resolved files reconstruct a record");
    assert_eq!(info.model_id, "acme/model-a");
    assert_eq!(info.files.len(), 2);
    assert_eq!(info.files[0].size, 100);
    assert_eq!(info.files[0].path, "/cache/config.json");
    assert_eq!(info.files[1].size, 20);
}

#[test]
fn test_reconstruct_falls_back_to_first_nonempty_snapshot() {
    let entries = vec![candidate_entry(
        "models--acme--model-a",
        vec![],
        vec![
            SnapshotDir { files: vec![] },
            SnapshotDir {
                files: vec![mf(10, "/cache/snapshots/h2/a"), mf(20, "/cache/snapshots/h2/b")],
            },
            SnapshotDir {
                files: vec![mf(30, "/cache/snapshots/h3/c")],
            },
        ],
    )];

    let info = reconstruct_model_info_from_cache("acme/model-a", &entries)
        .expect("snapshot walk reconstructs a record");
    assert_eq!(info.files.len(), 2);
    assert_eq!(info.files[0].size, 10);
    assert_eq!(info.files[1].size, 20);
}

#[test]
fn test_reconstruct_missing_directory() {
    let entries: Vec<CacheDirEntry> = vec![];
    let err = reconstruct_model_info_from_cache("acme/model-a", &entries)
        .expect_err("no entry means no directory");
    assert!(matches!(err, ReconstructError::DirectoryNotFound));
}

#[test]
fn test_reconstruct_no_files_found() {
    let entries = vec![candidate_entry(
        "models--acme--model-a",
        vec![],
        vec![SnapshotDir { files: vec![] }],
    )];
    let err = reconstruct_model_info_from_cache("acme/model-a", &entries)
        .expect_err("nothing resolved and empty snapshots yield no record");
    assert!(matches!(err, ReconstructError::NoFilesFound));
    assert!(err
        .message("acme/model-a")
        .contains("No model files found"));
}

#[test]
fn test_common_model_filenames() {
    let names = common_model_filenames();
    assert_eq!(names.len(), 9);
    assert_eq!(names[0], "config.json");
    assert!(names.contains(&"model.safetensors"));
    assert!(names.contains(&"special_tokens_map.json"));
}
