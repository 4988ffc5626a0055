use helix_plugin::{descriptors_from_document, select_descriptors, ConfigError, ConfigSource};

#[test]
fn document_skips_enabled_and_keeps_order() {
    let text = "enabled = true\n\n[zeta]\n\n[auto-darkmode]\ndark_theme = \"rose_pine\"\nlight_theme = \"rose_pine_dawn\"\n\n[alpha]\n";
    let d = descriptors_from_document(text).unwrap();
    let names: Vec<&str> = d.iter().map(|e| e.name.as_str()).collect();
    assert_eq!(names, vec!["zeta", "auto-darkmode", "alpha"]);
    let dark = d[1].settings.get("dark_theme").and_then(|v| v.as_str());
    assert_eq!(dark, Some("rose_pine"));
}

#[test]
fn document_malformed_is_error() {
    assert!(matches!(descriptors_from_document("[unclosed"), Err(ConfigError::Malformed)));
}

#[test]
fn document_empty_has_no_extensions() {
    assert_eq!(descriptors_from_document("").unwrap().len(), 0);
}

#[test]
fn in_process_skips_general() {
    let entries = vec![
        ("general".to_string(), toml::Value::Boolean(true)),
        ("one".to_string(), toml::Value::Integer(1)),
        ("enabled".to_string(), toml::Value::Integer(2)),
    ];
    let d = select_descriptors(entries, ConfigSource::InProcess);
    assert_eq!(d.len(), 2);
    assert_eq!(d[0].name, "one");
    assert_eq!(d[0].settings, toml::Value::Integer(1));
    assert_eq!(d[1].name, "enabled");
}

#[test]
fn reserved_keys() {
    assert_eq!(ConfigSource::Document.reserved_key(), "enabled");
    assert_eq!(ConfigSource::InProcess.reserved_key(), "general");
}

#[test]
fn document_counts_one_descriptor_per_extension() {
    let text = "enabled = [\"a\"]\n[a]\n[b]\n[c]\n";
    let d = descriptors_from_document(text).unwrap();
    assert_eq!(d.len(), 3);
    assert!(d.iter().all(|e| e.name != "enabled"));
}

#[test]
fn document_only_whitespace_names_none() {
    assert_eq!(descriptors_from_document("\n\n").unwrap().len(), 0);
}
