use merge_config_files::{merge_objects, ConfigValue, Error};

fn s(x: &str) -> String {
    x.to_string()
}

fn num(x: &str) -> ConfigValue {
    ConfigValue::Num(x.to_string())
}

#[test]
fn baseline_insert_single_document() {
    let doc = vec![
        (s("a"), num("1")),
        (s("b"), ConfigValue::Str(s("x"))),
        (s("c"), ConfigValue::Arr(vec![num("1"), num("2")])),
    ];
    let expected = vec![
        (s("a"), num("1")),
        (s("b"), ConfigValue::Str(s("x"))),
        (s("c"), ConfigValue::Arr(vec![num("1"), num("2")])),
    ];
    let merged = merge_objects(Vec::new(), doc, true, true).unwrap();
    assert_eq!(merged, expected);
}

#[test]
fn scalar_override_ignores_flags() {
    let target = vec![(s("a"), num("1")), (s("b"), ConfigValue::Bool(true))];
    let source = vec![
        (s("a"), ConfigValue::Arr(vec![num("7")])),
        (s("b"), ConfigValue::Null),
    ];
    let expected = vec![
        (s("a"), ConfigValue::Arr(vec![num("7")])),
        (s("b"), ConfigValue::Null),
    ];
    let merged = merge_objects(target, source, true, true).unwrap();
    assert_eq!(merged, expected);
}

#[test]
fn object_recursion_toggle_on() {
    let target = vec![(s("a"), ConfigValue::Obj(vec![(s("x"), num("1"))]))];
    let source = vec![(s("a"), ConfigValue::Obj(vec![(s("y"), num("2"))]))];
    let expected = vec![(
        s("a"),
        ConfigValue::Obj(vec![(s("x"), num("1")), (s("y"), num("2"))]),
    )];
    let merged = merge_objects(target, source, true, true).unwrap();
    assert_eq!(merged, expected);
}

#[test]
fn object_recursion_toggle_off() {
    let target = vec![(s("a"), ConfigValue::Obj(vec![(s("x"), num("1"))]))];
    let source = vec![(s("a"), ConfigValue::Obj(vec![(s("y"), num("2"))]))];
    let expected = vec![(s("a"), ConfigValue::Obj(vec![(s("y"), num("2"))]))];
    let merged = merge_objects(target, source, false, true).unwrap();
    assert_eq!(merged, expected);
}

#[test]
fn array_extend_toggle_on() {
    let target = vec![(s("a"), ConfigValue::Arr(vec![num("1"), num("2")]))];
    let source = vec![(s("a"), ConfigValue::Arr(vec![num("3")]))];
    let expected = vec![(s("a"), ConfigValue::Arr(vec![num("1"), num("2"), num("3")]))];
    let merged = merge_objects(target, source, true, true).unwrap();
    assert_eq!(merged, expected);
}

#[test]
fn array_extend_toggle_off() {
    let target = vec![(s("a"), ConfigValue::Arr(vec![num("1"), num("2")]))];
    let source = vec![(s("a"), ConfigValue::Arr(vec![num("3")]))];
    let expected = vec![(s("a"), ConfigValue::Arr(vec![num("3")]))];
    let merged = merge_objects(target, source, true, false).unwrap();
    assert_eq!(merged, expected);
}

#[test]
fn object_field_type_mismatch() {
    let target = vec![(s("a"), ConfigValue::Obj(vec![(s("x"), num("1"))]))];
    let source = vec![(s("a"), ConfigValue::Arr(vec![num("1"), num("2")]))];
    let err = merge_objects(target, source, true, true).unwrap_err();
    assert_eq!(
        err,
        Error::ObjectFieldTypeMismatch {
            key: s("a"),
            value: ConfigValue::Arr(vec![num("1"), num("2")]),
        }
    );
}

#[test]
fn array_field_type_mismatch() {
    let target = vec![(s("a"), ConfigValue::Arr(vec![num("1")]))];
    let source = vec![(s("a"), ConfigValue::Str(s("x")))];
    let err = merge_objects(target, source, true, true).unwrap_err();
    assert_eq!(
        err,
        Error::ArrayFieldTypeMismatch {
            key: s("a"),
            value: ConfigValue::Str(s("x")),
        }
    );
}

#[test]
fn order_significance_last_wins() {
    let docs = || {
        vec![
            vec![(s("a"), num("1"))],
            vec![(s("a"), num("2"))],
            vec![(s("a"), num("3"))],
        ]
    };
    let mut acc: Vec<(String, ConfigValue)> = Vec::new();
    for d in docs() {
        acc = merge_objects(acc, d, true, true).unwrap();
    }
    assert_eq!(acc, vec![(s("a"), num("3"))]);

    let mut acc: Vec<(String, ConfigValue)> = Vec::new();
    for d in docs().into_iter().rev() {
        acc = merge_objects(acc, d, true, true).unwrap();
    }
    assert_eq!(acc, vec![(s("a"), num("1"))]);
}

#[test]
fn merge_with_itself_duplicates_arrays() {
    let doc = || {
        vec![
            (s("a"), num("1")),
            (s("b"), ConfigValue::Arr(vec![num("1"), num("2")])),
            (
                s("c"),
                ConfigValue::Obj(vec![(s("d"), ConfigValue::Arr(vec![num("3")]))]),
            ),
        ]
    };
    let expected = vec![
        (s("a"), num("1")),
        (
            s("b"),
            ConfigValue::Arr(vec![num("1"), num("2"), num("1"), num("2")]),
        ),
        (
            s("c"),
            ConfigValue::Obj(vec![(s("d"), ConfigValue::Arr(vec![num("3"), num("3")]))]),
        ),
    ];
    let merged = merge_objects(doc(), doc(), true, true).unwrap();
    assert_eq!(merged, expected);
}

#[test]
fn new_keys_append_in_source_order() {
    let target = vec![(s("b"), num("1"))];
    let source = vec![(s("c"), num("2")), (s("a"), num("3"))];
    let expected = vec![(s("b"), num("1")), (s("c"), num("2")), (s("a"), num("3"))];
    let merged = merge_objects(target, source, true, true).unwrap();
    assert_eq!(merged, expected);
}
