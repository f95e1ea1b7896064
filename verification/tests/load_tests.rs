use merge_config_files::{parse_config_file, parse_config_files, ConfigValue, Error};

fn s(x: &str) -> String {
    x.to_string()
}

fn num(x: &str) -> ConfigValue {
    ConfigValue::Num(x.to_string())
}

#[test]
fn parses_json_object() {
    let doc = parse_config_file(&s("app.json"), &s(r#"{"b": "x", "a": 1}"#)).unwrap();
    assert_eq!(doc, vec![(s("a"), num("1")), (s("b"), ConfigValue::Str(s("x")))]);
}

#[test]
fn parses_json_nested_values() {
    let text = r#"{"a": {"flag": true, "vals": [1, 2.5, null]}}"#;
    let doc = parse_config_file(&s("app.json"), &s(text)).unwrap();
    assert_eq!(
        doc,
        vec![(
            s("a"),
            ConfigValue::Obj(vec![
                (s("flag"), ConfigValue::Bool(true)),
                (
                    s("vals"),
                    ConfigValue::Arr(vec![num("1"), num("2.5"), ConfigValue::Null]),
                ),
            ]),
        )]
    );
}

#[test]
fn parses_toml_table() {
    let doc = parse_config_file(&s("app.toml"), &s("b = \"x\"\na = 1\n")).unwrap();
    assert_eq!(doc, vec![(s("a"), num("1")), (s("b"), ConfigValue::Str(s("x")))]);
}

#[test]
fn rejects_unsupported_extension() {
    let err = parse_config_file(&s("settings.yaml"), &s("a: 1\n")).unwrap_err();
    assert_eq!(err, Error::UnsupportedFileType { path: s("settings.yaml") });
}

#[test]
fn rejects_missing_extension() {
    let err = parse_config_file(&s("settings"), &s("{}")).unwrap_err();
    assert_eq!(err, Error::UnsupportedFileType { path: s("settings") });
}

#[test]
fn rejects_hidden_file_without_extension() {
    let err = parse_config_file(&s("conf/.toml"), &s("a = 1\n")).unwrap_err();
    assert_eq!(err, Error::UnsupportedFileType { path: s("conf/.toml") });
}

#[test]
fn extension_of_last_component_decides() {
    let doc = parse_config_file(&s("conf.d/app.json"), &s("{\"a\": 1}")).unwrap();
    assert_eq!(doc, vec![(s("a"), num("1"))]);
}

#[test]
fn reports_json_parse_failure() {
    let err = parse_config_file(&s("app.json"), &s("{ not json")).unwrap_err();
    assert!(matches!(err, Error::ParseJson { path, .. } if path == "app.json"));
}

#[test]
fn reports_json_non_object_top_level() {
    let err = parse_config_file(&s("app.json"), &s("[1, 2]")).unwrap_err();
    assert!(matches!(err, Error::ParseJson { path, .. } if path == "app.json"));
}

#[test]
fn reports_toml_parse_failure() {
    let err = parse_config_file(&s("app.toml"), &s("= broken")).unwrap_err();
    assert!(matches!(err, Error::ParseToml { path, .. } if path == "app.toml"));
}

#[test]
fn folds_later_files_over_earlier_ones() {
    let files = vec![
        (s("base.toml"), s("a = 1\nb = 5\n")),
        (s("override.json"), s(r#"{"a": 2}"#)),
    ];
    let merged = parse_config_files(&files, true, true).unwrap();
    assert_eq!(merged, vec![(s("a"), num("2")), (s("b"), num("5"))]);
}

#[test]
fn fold_order_decides_overrides() {
    let files = vec![
        (s("override.json"), s(r#"{"a": 2}"#)),
        (s("base.toml"), s("a = 1\nb = 5\n")),
    ];
    let merged = parse_config_files(&files, true, true).unwrap();
    assert_eq!(merged, vec![(s("a"), num("1")), (s("b"), num("5"))]);
}

#[test]
fn fold_reports_conflicts() {
    let files = vec![
        (s("one.json"), s(r#"{"a": {"x": 1}}"#)),
        (s("two.json"), s(r#"{"a": [1]}"#)),
    ];
    let err = parse_config_files(&files, true, true).unwrap_err();
    assert_eq!(
        err,
        Error::ObjectFieldTypeMismatch {
            key: s("a"),
            value: ConfigValue::Arr(vec![num("1")]),
        }
    );
}

#[test]
fn fold_reports_first_unloadable_file() {
    let files = vec![
        (s("one.json"), s(r#"{"a": 1}"#)),
        (s("two.ini"), s("a = 2\n")),
    ];
    let err = parse_config_files(&files, true, true).unwrap_err();
    assert_eq!(err, Error::UnsupportedFileType { path: s("two.ini") });
}

#[test]
fn fold_of_nothing_is_empty() {
    let files: Vec<(String, String)> = Vec::new();
    let merged = parse_config_files(&files, true, true).unwrap();
    assert_eq!(merged, Vec::new());
}
