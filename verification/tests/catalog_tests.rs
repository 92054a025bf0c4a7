use si::catalog::ModelIndex;
use si::models::{ModelFile, ModelInfo};

fn mf(size: u64, path: &str) -> ModelFile {
    ModelFile {
        size,
        path: path.to_string(),
    }
}

#[test]
fn test_model_index_models_with_missing_file() {
    let model_index = ModelIndex::new(None);
    let models = model_index.models().expect("absent document loads as empty");
    assert_eq!(models.len(), 0);
}

#[test]
fn test_model_index_models_with_existing_file() {
    let index_data = r#"{
        "models": [
            {
                "model_id": "model1",
                "files": []
            },
            {
                "model_id": "model2",
                "files": [
                    {
                        "size": 512,
                        "path": "/path/to/model2.bin"
                    }
                ]
            }
        ]
    }"#;

    let model_index = ModelIndex::new(Some(index_data.to_string()));
    let models = model_index.models().expect("well-formed document loads");

    assert_eq!(models.len(), 2);
    assert_eq!(models[0].model_id, "model1");
    assert_eq!(models[1].model_id, "model2");
    assert_eq!(models[1].files.len(), 1);
}

#[test]
fn test_model_index_models_with_invalid_json() {
    let model_index = ModelIndex::new(Some("invalid json content".to_string()));
    let result = model_index.models();
    assert!(result.is_err());
}

#[test]
fn test_model_index_add_new_model() {
    let mut model_index = ModelIndex::new(None);
    let model = ModelInfo::new(
        "test-model".to_string(),
        vec![mf(1024, "/path/to/file.bin")],
    );

    model_index.add_model(model).expect("upsert into empty store succeeds");
    let models = model_index.models().expect("store loads after upsert");

    assert_eq!(models.len(), 1);
    assert_eq!(models[0].model_id, "test-model");
    assert_eq!(models[0].files.len(), 1);
}

#[test]
fn test_model_index_add_existing_model() {
    let initial_data = r#"{
        "models": [
            {
                "model_id": "test-model",
                "files": [
                    {
                        "size": 512,
                        "path": "/old/path.bin"
                    }
                ]
            }
        ]
    }"#;

    let mut model_index = ModelIndex::new(Some(initial_data.to_string()));
    let updated_model = ModelInfo::new(
        "test-model".to_string(),
        vec![mf(1024, "/new/path.bin")],
    );

    model_index.add_model(updated_model).expect("upsert succeeds");
    let models = model_index.models().expect("store loads after upsert");

    assert_eq!(models.len(), 1);
    assert_eq!(models[0].model_id, "test-model");
    assert_eq!(models[0].files.len(), 1);
    assert_eq!(models[0].files[0].size, 1024);
    assert_eq!(models[0].files[0].path, "/new/path.bin");
}

#[test]
fn test_model_index_add_and_update_operations() {
    let mut model_index = ModelIndex::new(None);

    let test_model = ModelInfo::new("test-model".to_string(), vec![mf(512, "model.bin")]);
    model_index.add_model(test_model).expect("first upsert succeeds");
    let models = model_index.models().expect("store loads");
    assert_eq!(models.len(), 1);
    assert_eq!(models[0].model_id, "test-model");
    assert_eq!(models[0].files.len(), 1);
    assert_eq!(models[0].files[0].size, 512);

    let test_model2 = ModelInfo::new("test-model-2".to_string(), vec![]);
    model_index.add_model(test_model2).expect("second upsert succeeds");
    let models = model_index.models().expect("store loads");
    assert_eq!(models.len(), 2);

    let updated_model = ModelInfo::new(
        "test-model".to_string(),
        vec![mf(1024, "updated_model.bin")],
    );
    model_index.add_model(updated_model).expect("update succeeds");
    let models = model_index.models().expect("store loads");
    assert_eq!(models.len(), 2);

    let updated = models.iter().find(|m| m.model_id == "test-model").unwrap();
    assert_eq!(updated.files.len(), 1);
    assert_eq!(updated.files[0].size, 1024);
}

#[test]
fn test_model_index_save_and_reload() {
    let mut model_index = ModelIndex::new(None);
    model_index
        .add_model(ModelInfo::new("model1".to_string(), vec![]))
        .expect("upsert succeeds");
    model_index
        .add_model(ModelInfo::new(
            "model2".to_string(),
            vec![mf(1024, "/path/to/file.bin")],
        ))
        .expect("upsert succeeds");

    let contents = model_index.contents().clone().expect("medium was written");
    let reloaded = ModelIndex::new(Some(contents));
    let models = reloaded.models().expect("written medium parses");

    assert_eq!(models.len(), 2);
    assert_eq!(models[0].model_id, "model1");
    assert_eq!(models[1].model_id, "model2");
    assert_eq!(models[1].files.len(), 1);
}

#[test]
fn test_add_model_on_malformed_document_fails_and_keeps_medium() {
    let mut model_index = ModelIndex::new(Some("{ invalid json }".to_string()));
    let result = model_index.add_model(ModelInfo::new("x".to_string(), vec![]));
    assert!(result.is_err());
    assert_eq!(
        model_index.contents().as_deref(),
        Some("{ invalid json }")
    );
}

#[test]
fn test_upsert_same_id_twice_keeps_second() {
    // Two downloads of one identifier, upserted in turn, leave exactly one
    // record holding the second download's files.
    let mut model_index = ModelIndex::new(None);
    model_index
        .add_model(ModelInfo::new("x".to_string(), vec![mf(1, "f1")]))
        .expect("first upsert succeeds");
    model_index
        .add_model(ModelInfo::new("x".to_string(), vec![mf(2, "f2")]))
        .expect("second upsert succeeds");

    let models = model_index.models().expect("store loads");
    assert_eq!(models.len(), 1);
    assert_eq!(models[0].model_id, "x");
    assert_eq!(models[0].files.len(), 1);
    assert_eq!(models[0].files[0].size, 2);
    assert_eq!(models[0].files[0].path, "f2");
}
