use uv_core::config_settings::{ConfigSettingEntry, ConfigSettingValue, ConfigSettings};

fn entry(key: &str, value: &str) -> ConfigSettingEntry {
    ConfigSettingEntry::new(key.to_string(), value.to_string())
}

fn list(values: &[&str]) -> Vec<String> {
    values.iter().map(|v| v.to_string()).collect()
}

fn as_list(value: Option<&ConfigSettingValue>) -> Option<Vec<String>> {
    match value {
        Some(ConfigSettingValue::List(l)) => Some(l.clone()),
        _ => None,
    }
}

fn as_string(value: Option<&ConfigSettingValue>) -> Option<String> {
    match value {
        Some(ConfigSettingValue::String(s)) => Some(s.clone()),
        _ => None,
    }
}

#[test]
fn collect_config_settings() {
    let settings = ConfigSettings::from_entries(vec![
        entry("key", "value"),
        entry("key", "value2"),
        entry("list", "value3"),
        entry("list", "value4"),
    ]);
    assert_eq!(as_list(settings.get("key")), Some(list(&["value", "value2"])));
    assert_eq!(as_list(settings.get("list")), Some(list(&["value3", "value4"])));
}

#[test]
fn escape_for_python() {
    let mut settings = ConfigSettings::new();
    settings.insert("key".to_string(), ConfigSettingValue::String("value".to_string()));
    settings.insert(
        "list".to_string(),
        ConfigSettingValue::List(list(&["value1", "value2"])),
    );
    assert_eq!(
        settings.escape_for_python(),
        r#"{"key":"value","list":["value1","value2"]}"#
    );

    let mut settings = ConfigSettings::new();
    settings.insert(
        "key".to_string(),
        ConfigSettingValue::String("Hello, \"world!\"".to_string()),
    );
    settings.insert("list".to_string(), ConfigSettingValue::List(list(&["'value1'"])));
    assert_eq!(
        settings.escape_for_python(),
        r#"{"key":"Hello, \"world!\"","list":["'value1'"]}"#
    );

    let mut settings = ConfigSettings::new();
    settings.insert(
        "key".to_string(),
        ConfigSettingValue::String("val\\1 {}value".to_string()),
    );
    assert_eq!(settings.escape_for_python(), r#"{"key":"val\\1 {}value"}"#);
}

#[test]
fn collect_serializes_as_lists() {
    let settings = ConfigSettings::from_entries(vec![
        entry("key", "v"),
        entry("key", "v2"),
        entry("list", "v3"),
        entry("list", "v4"),
    ]);
    assert_eq!(
        settings.escape_for_python(),
        r#"{"key":["v","v2"],"list":["v3","v4"]}"#
    );
    assert_eq!(settings.len(), 2);
}

#[test]
fn single_entry_stays_a_string() {
    let settings = ConfigSettings::from_entries(vec![entry("a", "1")]);
    assert_eq!(as_string(settings.get("a")), Some("1".to_string()));
    assert!(settings.get("b").is_none());
}

#[test]
fn empty_settings() {
    let settings = ConfigSettings::from_entries(vec![]);
    assert!(settings.is_empty());
    assert_eq!(settings.len(), 0);
    assert_eq!(settings.escape_for_python(), "{}");
}

#[test]
fn keys_serialize_sorted() {
    let settings = ConfigSettings::from_entries(vec![entry("b", "2"), entry("a", "1"), entry("c", "3")]);
    assert_eq!(settings.escape_for_python(), r#"{"a":"1","b":"2","c":"3"}"#);
}

#[test]
fn control_characters_are_escaped() {
    let settings = ConfigSettings::from_entries(vec![entry("k", "a\nb\tc\u{1}")]);
    assert_eq!(settings.escape_for_python(), "{\"k\":\"a\\nb\\tc\\u0001\"}");
}

#[test]
fn merge_left_values_come_first() {
    let left = ConfigSettings::from_entries(vec![entry("a", "1"), entry("b", "x")]);
    let right = ConfigSettings::from_entries(vec![entry("a", "2"), entry("c", "3")]);
    let merged = left.merge(right);
    assert_eq!(as_list(merged.get("a")), Some(list(&["1", "2"])));
    assert_eq!(as_string(merged.get("b")), Some("x".to_string()));
    assert_eq!(as_string(merged.get("c")), Some("3".to_string()));
    assert_eq!(merged.escape_for_python(), r#"{"a":["1","2"],"b":"x","c":"3"}"#);
}

#[test]
fn merge_lists_extend() {
    let left = ConfigSettings::from_entries(vec![entry("a", "1"), entry("a", "2")]);
    let right = ConfigSettings::from_entries(vec![entry("a", "3"), entry("a", "4")]);
    let merged = left.merge(right);
    assert_eq!(as_list(merged.get("a")), Some(list(&["1", "2", "3", "4"])));
    let left = ConfigSettings::from_entries(vec![entry("a", "1")]);
    let right = ConfigSettings::from_entries(vec![entry("a", "3"), entry("a", "4")]);
    assert_eq!(as_list(left.merge(right).get("a")), Some(list(&["1", "3", "4"])));
    let left = ConfigSettings::from_entries(vec![entry("a", "1"), entry("a", "2")]);
    let right = ConfigSettings::from_entries(vec![entry("a", "3")]);
    assert_eq!(as_list(left.merge(right).get("a")), Some(list(&["1", "2", "3"])));
}

#[test]
fn merge_appends_new_keys_after_left_keys() {
    let left = ConfigSettings::from_entries(vec![entry("a", "1"), entry("b", "2")]);
    let right = ConfigSettings::from_entries(vec![entry("b", "3"), entry("c", "4"), entry("d", "5")]);
    let merged = left.merge(right);
    assert_eq!(
        merged.escape_for_python(),
        r#"{"a":"1","b":["2","3"],"c":"4","d":"5"}"#
    );
}

#[test]
fn insert_replaces_value() {
    let mut settings = ConfigSettings::from_entries(vec![entry("a", "1")]);
    settings.insert("a".to_string(), ConfigSettingValue::String("2".to_string()));
    assert_eq!(as_string(settings.get("a")), Some("2".to_string()));
    assert_eq!(settings.len(), 1);
}

#[test]
fn parse_config_setting_entry() {
    let e = ConfigSettingEntry::from_str("  key = value  ").unwrap();
    assert_eq!(e.key, "key");
    assert_eq!(e.value, "value");
    let e = ConfigSettingEntry::from_str("a=b=c").unwrap();
    assert_eq!(e.key, "a");
    assert_eq!(e.value, "b=c");
    let err = ConfigSettingEntry::from_str("novalue").unwrap_err();
    assert_eq!(err, "Invalid config setting: novalue (expected `KEY=VALUE`)");
}

#[test]
fn json_round_trip() {
    let settings = ConfigSettings::from_entries(vec![
        entry("key", "Hello, \"world!\""),
        entry("list", "'value1'"),
        entry("list", "a\\b\n\u{1}"),
        entry("z", ""),
    ]);
    let text = settings.escape_for_python();
    let back = ConfigSettings::from_json(&text).unwrap();
    assert_eq!(back.escape_for_python(), text);
    assert_eq!(as_string(back.get("key")), Some("Hello, \"world!\"".to_string()));
    assert_eq!(as_list(back.get("list")), Some(list(&["'value1'", "a\\b\n\u{1}"])));
    assert_eq!(back.len(), 3);
}

#[test]
fn from_json_reads_objects() {
    assert_eq!(ConfigSettings::from_json("{}").unwrap().len(), 0);
    let s = ConfigSettings::from_json(r#"{"b":"1","a":[],"b":"2"}"#).unwrap();
    assert_eq!(as_string(s.get("b")), Some("2".to_string()));
    assert_eq!(as_list(s.get("a")), Some(vec![]));
    assert_eq!(s.escape_for_python(), r#"{"a":[],"b":"2"}"#);
    let s = ConfigSettings::from_json(r#"{"k":"A\/"}"#).unwrap();
    assert_eq!(as_string(s.get("k")), Some("A/".to_string()));
    assert!(ConfigSettings::from_json("").is_none());
    assert!(ConfigSettings::from_json("{").is_none());
    assert!(ConfigSettings::from_json(r#"{"a":1}"#).is_none());
    assert!(ConfigSettings::from_json(r#"{"a":"x"} "#).is_none());
    assert!(ConfigSettings::from_json(r#"{"a":"x",}"#).is_none());
}

use uv_core::config_settings::{normalize_package_name, ConfigSettingPackageEntry, PackageConfigSettings};

#[test]
fn parse_config_setting_package_entry() {
    // Test valid parsing
    let entry = ConfigSettingPackageEntry::from_str("numpy:editable_mode=compat").unwrap();
    assert_eq!(entry.package, "numpy");
    assert_eq!(entry.setting.key, "editable_mode");
    assert_eq!(entry.setting.value, "compat");

    // Test with package name containing hyphens
    let entry = ConfigSettingPackageEntry::from_str("my-package:some_key=value").unwrap();
    assert_eq!(entry.package, "my-package");
    assert_eq!(entry.setting.key, "some_key");
    assert_eq!(entry.setting.value, "value");

    // Test with spaces around values
    let entry = ConfigSettingPackageEntry::from_str("  numpy : key = value  ").unwrap();
    assert_eq!(entry.package, "numpy");
    assert_eq!(entry.setting.key, "key");
    assert_eq!(entry.setting.value, "value");
}

#[test]
fn collect_config_settings_package() {
    let settings = PackageConfigSettings::from_entries(vec![
        ConfigSettingPackageEntry::from_str("numpy:editable_mode=compat").unwrap(),
        ConfigSettingPackageEntry::from_str("numpy:another_key=value").unwrap(),
        ConfigSettingPackageEntry::from_str("scipy:build_option=fast").unwrap(),
    ]);

    let numpy_settings = settings.get(&"numpy".to_string()).unwrap();
    assert_eq!(as_string(numpy_settings.get("editable_mode")), Some("compat".to_string()));
    assert_eq!(as_string(numpy_settings.get("another_key")), Some("value".to_string()));

    let scipy_settings = settings.get(&"scipy".to_string()).unwrap();
    assert_eq!(as_string(scipy_settings.get("build_option")), Some("fast".to_string()));
}

#[test]
fn package_entry_errors() {
    assert!(ConfigSettingPackageEntry::from_str("numpy").is_err());
    assert!(ConfigSettingPackageEntry::from_str("-bad:k=v").unwrap_err().starts_with("Invalid package name: "));
    assert!(ConfigSettingPackageEntry::from_str("numpy:kv").unwrap_err().starts_with("Invalid config setting: "));
    assert_eq!(normalize_package_name("Foo__Bar.baz").unwrap(), "foo-bar-baz");
    assert!(normalize_package_name("").is_err());
    assert!(normalize_package_name("a b").is_err());
}

#[test]
fn package_settings_merge() {
    let left = PackageConfigSettings::from_entries(vec![
        ConfigSettingPackageEntry::from_str("numpy:a=1").unwrap(),
    ]);
    let right = PackageConfigSettings::from_entries(vec![
        ConfigSettingPackageEntry::from_str("numpy:a=2").unwrap(),
        ConfigSettingPackageEntry::from_str("scipy:b=3").unwrap(),
    ]);
    assert!(!left.is_empty());
    let merged = left.merge(right);
    let numpy = merged.get(&"numpy".to_string()).unwrap();
    assert_eq!(as_list(numpy.get("a")), Some(list(&["1", "2"])));
    let scipy = merged.get(&"scipy".to_string()).unwrap();
    assert_eq!(as_string(scipy.get("b")), Some("3".to_string()));
    assert!(PackageConfigSettings::from_entries(vec![]).is_empty());
}

#[test]
fn merge_keeps_left_order_then_new_keys() {
    let left = ConfigSettings::from_entries(vec![entry("b", "1"), entry("c", "2")]);
    let right = ConfigSettings::from_entries(vec![entry("a", "3"), entry("c", "4"), entry("0", "5")]);
    let merged = left.merge(right);
    assert_eq!(merged.key_names(), vec!["b".to_string(), "c".to_string(), "a".to_string(), "0".to_string()]);
    assert_eq!(merged.escape_for_python(), r#"{"0":"5","a":"3","b":"1","c":["2","4"]}"#);
}

#[test]
fn keys_keep_arrival_order() {
    let settings = ConfigSettings::from_entries(vec![entry("z", "1"), entry("a", "2"), entry("z", "3")]);
    assert_eq!(settings.key_names(), vec!["z".to_string(), "a".to_string()]);
}
