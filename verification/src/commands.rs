//! The command surface of the CLI, as plain data, and the response lines of
//! the commands that only print.
//!
//! The thin binary parses the real command line into these values and
//! prints the lines computed here; argument parsing itself and the
//! commands that do I/O stay outside the library.

use vstd::prelude::*;
use vstd::string::StringExecFns;

verus! {

/// Model-related operations.
pub enum ModelCommands {
    /// List available models.
    List,
    /// Download a new model.
    Download { name: String },
    /// Delete a model.
    Delete { name: String },
    /// Show model details.
    Show { name: String },
}

/// Configuration management.
pub enum ConfigCommands {
    /// Show current configuration.
    Show,
    /// Set a configuration value.
    SetValue { key: String, value: String },
    /// Get a configuration value.
    Get { key: String },
    /// Reset configuration to defaults.
    Reset,
}

/// Image-related operations.
pub enum ImageCommands {
    /// Generate an image.
    Generate { prompt: String, model: String, input: String, output: String },
}

/// The top-level commands.
pub enum Commands {
    Model { action: ModelCommands },
    Config { action: ConfigCommands },
    Image { action: ImageCommands },
}

/// The lines a configuration command answers with.
pub open spec fn config_command_lines(action: ConfigCommands) -> Seq<Seq<char>> {
    match action {
        ConfigCommands::Show => seq!["Showing current configuration..."@],
        ConfigCommands::SetValue { key, value } => seq!["Setting config: "@ + key@ + " = "@ + value@],
        ConfigCommands::Get { key } => seq!["Getting config value for: "@ + key@],
        ConfigCommands::Reset => seq!["Resetting configuration to defaults..."@],
    }
}

/// The lines an image command answers with.
pub open spec fn image_command_lines(action: ImageCommands) -> Seq<Seq<char>> {
    match action {
        ImageCommands::Generate { prompt, model, input, output } => seq![
            "Generating image with prompt: "@ + prompt@,
            "Using model: "@ + model@,
            "Input image: "@ + input@,
            "Output image: "@ + output@,
        ],
    }
}

/// Computes the lines a configuration command prints, in print order.
pub fn handle_config_command(action: ConfigCommands) -> (r: Vec<String>)
    ensures
        r@.map_values(|s: String| s@) == config_command_lines(action),
{
    let mut lines: Vec<String> = Vec::new();
    match action {
        ConfigCommands::Show => {
            lines.push(String::from_str("Showing current configuration..."));
        },
        ConfigCommands::SetValue { key, value } => {
            let mut line: String = String::from_str("Setting config: ");
            line.append(key.as_str());
            line.append(" = ");
            line.append(value.as_str());
            lines.push(line);
        },
        ConfigCommands::Get { key } => {
            let mut line: String = String::from_str("Getting config value for: ");
            line.append(key.as_str());
            lines.push(line);
        },
        ConfigCommands::Reset => {
            lines.push(String::from_str("Resetting configuration to defaults..."));
        },
    }
    proof {
        assert(lines@.map_values(|s: String| s@) =~= config_command_lines(action));
    }
    lines
}

/// Computes the lines an image command prints, in print order.
pub fn handle_image_command(action: ImageCommands) -> (r: Vec<String>)
    ensures
        r@.map_values(|s: String| s@) == image_command_lines(action),
{
    let mut lines: Vec<String> = Vec::new();
    match action {
        ImageCommands::Generate { prompt, model, input, output } => {
            let mut l1: String = String::from_str("Generating image with prompt: ");
            l1.append(prompt.as_str());
            lines.push(l1);
            let mut l2: String = String::from_str("Using model: ");
            l2.append(model.as_str());
            lines.push(l2);
            let mut l3: String = String::from_str("Input image: ");
            l3.append(input.as_str());
            lines.push(l3);
            let mut l4: String = String::from_str("Output image: ");
            l4.append(output.as_str());
            lines.push(l4);
        },
    }
    proof {
        assert(lines@.map_values(|s: String| s@) =~= image_command_lines(action));
    }
    lines
}

} // verus!
