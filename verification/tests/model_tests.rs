use si::commands::{Commands, ConfigCommands, ImageCommands, ModelCommands};
use si::commands::{handle_config_command, handle_image_command};
use si::models::{ModelFile, ModelInfo, SyncResult};

#[test]
fn test_model_info_new() {
    let files = vec![
        ModelFile {
            size: 1024,
            path: "/path/to/file1.bin".to_string(),
        },
        ModelFile {
            size: 2048,
            path: "/path/to/file2.json".to_string(),
        },
    ];

    let model_info = ModelInfo::new("test-model".to_string(), files.clone());

    assert_eq!(model_info.model_id, "test-model");
    assert_eq!(model_info.files.len(), 2);
    assert_eq!(model_info.files[0].size, 1024);
    assert_eq!(model_info.files[1].size, 2048);
}

#[test]
fn test_model_commands_variants() {
    let _list = ModelCommands::List;
    let _download = ModelCommands::Download {
        name: "test".to_string(),
    };
    let _delete = ModelCommands::Delete {
        name: "test".to_string(),
    };
    let _show = ModelCommands::Show {
        name: "test".to_string(),
    };
}

#[test]
fn test_config_commands_variants() {
    let _show = ConfigCommands::Show;
    let _set = ConfigCommands::SetValue {
        key: "key".to_string(),
        value: "value".to_string(),
    };
    let _get = ConfigCommands::Get {
        key: "key".to_string(),
    };
    let _reset = ConfigCommands::Reset;
}

#[test]
fn test_image_commands_variants() {
    let _generate = ImageCommands::Generate {
        prompt: "test".to_string(),
        model: "model".to_string(),
        input: "input.jpg".to_string(),
        output: "output.png".to_string(),
    };
}

#[test]
fn test_commands_variants() {
    let _model = Commands::Model {
        action: ModelCommands::List,
    };
    let _config = Commands::Config {
        action: ConfigCommands::Show,
    };
    let _image = Commands::Image {
        action: ImageCommands::Generate {
            prompt: "test".to_string(),
            model: "model".to_string(),
            input: "input.jpg".to_string(),
            output: "output.png".to_string(),
        },
    };
}

#[test]
fn test_handle_config_command_lines() {
    let lines = handle_config_command(ConfigCommands::Show);
    assert_eq!(lines, vec!["Showing current configuration...".to_string()]);

    let lines = handle_config_command(ConfigCommands::SetValue {
        key: "test_key".to_string(),
        value: "test_value".to_string(),
    });
    assert_eq!(lines, vec!["Setting config: test_key = test_value".to_string()]);

    let lines = handle_config_command(ConfigCommands::Get {
        key: "test_key".to_string(),
    });
    assert_eq!(lines, vec!["Getting config value for: test_key".to_string()]);

    let lines = handle_config_command(ConfigCommands::Reset);
    assert_eq!(lines, vec!["Resetting configuration to defaults...".to_string()]);
}

#[test]
fn test_handle_image_command_lines() {
    let lines = handle_image_command(ImageCommands::Generate {
        prompt: "A beautiful sunset".to_string(),
        model: "test-model".to_string(),
        input: "input.jpg".to_string(),
        output: "output.png".to_string(),
    });
    assert_eq!(
        lines,
        vec![
            "Generating image with prompt: A beautiful sunset".to_string(),
            "Using model: test-model".to_string(),
            "Input image: input.jpg".to_string(),
            "Output image: output.png".to_string(),
        ]
    );
}

#[test]
fn test_sync_result_basic_operations() {
    let mut sync_result = SyncResult::new();

    assert_eq!(sync_result.discrepancies_count(), 0);
    assert_eq!(sync_result.messages().len(), 0);

    sync_result.add_message("Test message".to_string());
    sync_result.add_model_to_index("model1".to_string());
    sync_result.remove_model_from_index("model2".to_string());
    sync_result.mark_model_missing_locally("model3".to_string());

    assert_eq!(sync_result.discrepancies_count(), 3);
    assert_eq!(sync_result.messages().len(), 1);
    assert_eq!(sync_result.messages()[0], "Test message");
}

#[test]
fn test_sync_result_default_is_empty() {
    let sync_result = SyncResult::default();
    assert_eq!(sync_result.discrepancies_count(), 0);
    assert_eq!(sync_result.messages().len(), 0);
    assert!(sync_result.added_to_index().is_empty());
    assert!(sync_result.removed_from_index().is_empty());
    assert!(sync_result.missing_locally().is_empty());
}
