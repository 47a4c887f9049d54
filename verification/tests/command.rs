use dyndo::command::{parse_asset_schema_command, usage_error};

fn args(words: &[&str]) -> Vec<String> {
    words.iter().map(|word| word.to_string()).collect()
}

#[test]
fn asset_schema_command_requires_an_output_path() {
    let parsed = parse_asset_schema_command(&args(&["asset-schema", "--output", "schema.json"])).unwrap();

    assert_eq!(parsed, "schema.json");
}

#[test]
fn asset_schema_command_rejects_unexpected_arguments() {
    let result = parse_asset_schema_command(&args(&["asset-schema"]));

    assert!(result.is_err());
}

#[test]
fn asset_schema_command_rejects_trailing_and_misspelt_arguments() {
    assert!(parse_asset_schema_command(&args(&["asset-schema", "--output", "a", "b"])).is_err());
    assert!(parse_asset_schema_command(&args(&["asset-schema", "-o", "a"])).is_err());
    assert!(parse_asset_schema_command(&args(&[])).is_err());
}

#[test]
fn the_usage_error_says_how_the_command_is_used() {
    assert_eq!(
        usage_error().message,
        "usage: cargo xtask asset-schema --output <path>"
    );
}
