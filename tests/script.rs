use dst_mods::{entry_id, parse_option_args, value2str, ScriptTable, ScriptValue, Mod, DescriptorError, Field};

fn table(items: Vec<ScriptValue>, fields: Vec<(&str, ScriptValue)>) -> ScriptValue {
    ScriptValue::Table(ScriptTable {
        items,
        fields: fields.into_iter().map(|(k, v)| (k.to_string(), v)).collect(),
    })
}

fn s(x: &str) -> ScriptValue {
    ScriptValue::Str(x.to_string())
}

#[test]
fn ids_from_folder_names() {
    assert_eq!(entry_id("workshop-42"), Some(42));
    assert_eq!(entry_id("a-b-7"), Some(7));
    assert_eq!(entry_id("322330"), Some(322330));
    assert_eq!(entry_id("workshop-"), None);
    assert_eq!(entry_id("workshop-4x"), None);
    assert_eq!(entry_id("readme"), None);
    assert_eq!(entry_id(""), None);
    assert_eq!(entry_id("x-99999999999999999999999"), None);
    assert_eq!(entry_id(&format!("m-{}", usize::MAX)), Some(usize::MAX));
}

#[test]
fn literal_rendering() {
    assert_eq!(value2str(&ScriptValue::Boolean(true)).unwrap(), "true");
    assert_eq!(value2str(&ScriptValue::Boolean(false)).unwrap(), "false");
    assert_eq!(value2str(&s("a\"b")).unwrap(), "\"a\"b\"");
    assert_eq!(value2str(&ScriptValue::Integer(-120)).unwrap(), "-120");
    assert_eq!(value2str(&ScriptValue::Integer(0)).unwrap(), "0");
    assert_eq!(value2str(&ScriptValue::Integer(i64::MIN)).unwrap(), i64::MIN.to_string());
    assert_eq!(value2str(&ScriptValue::Number(1.5f64.to_string())).unwrap(), "1.5");
    assert!(value2str(&ScriptValue::Nil).is_err());
    assert!(value2str(&ScriptValue::Other).is_err());
    assert!(value2str(&table(vec![], vec![])).is_err());
}

#[test]
fn option_arguments() {
    let p = parse_option_args("speed=2,power=true").unwrap();
    assert_eq!(p, vec![
        ("speed".to_string(), "2".to_string()),
        ("power".to_string(), "true".to_string()),
    ]);
    let p = parse_option_args("a=b=c").unwrap();
    assert_eq!(p, vec![("a".to_string(), "b".to_string())]);
    assert!(parse_option_args("speed").is_none());
    assert!(parse_option_args("a=1,").is_none());
}

#[test]
fn identity_from_globals() {
    let m = Mod::read_identity(3, "/p".to_string(), &s("Foo"), &ScriptValue::Boolean(true)).unwrap();
    assert_eq!(m.name, "Foo");
    assert_eq!(m.id, 3);
    assert!(m.client_only);
    let e = Mod::read_identity(3, "/p".to_string(), &ScriptValue::Nil, &ScriptValue::Boolean(true));
    assert!(matches!(e, Err(DescriptorError::Global(Field::Name))));
    let e = Mod::read_identity(3, "/p".to_string(), &s("Foo"), &ScriptValue::Nil);
    assert!(matches!(e, Err(DescriptorError::Global(Field::ClientOnly))));
}

fn option(name: &str, client: Option<bool>) -> ScriptValue {
    let mut f = vec![
        ("name", s(name)),
        ("label", s("Label")),
        ("default", ScriptValue::Integer(1)),
        ("options", table(vec![
            table(vec![], vec![("data", ScriptValue::Integer(1)), ("description", s("one"))]),
            table(vec![], vec![("data", ScriptValue::Boolean(false))]),
        ], vec![])),
    ];
    if let Some(c) = client {
        f.push(("client", ScriptValue::Boolean(c)));
    }
    table(vec![], f)
}

#[test]
fn options_skip_client_entries() {
    let config = table(vec![option("a", None), option("b", Some(true)), option("c", Some(false))], vec![]);
    let opts = Mod::read_options(&config).unwrap();
    assert_eq!(opts.len(), 2);
    assert_eq!(opts[0].name, "a");
    assert_eq!(opts[1].name, "c");
    assert_eq!(opts[0].default, "1");
    assert_eq!(opts[0].description.as_deref(), Some("Label"));
    assert_eq!(opts[0].options.len(), 2);
    assert_eq!(opts[0].options[0].data, "1");
    assert_eq!(opts[0].options[0].description.as_deref(), Some("one"));
    assert_eq!(opts[0].options[1].data, "false");
    assert_eq!(opts[0].options[1].description, None);
}

#[test]
fn options_absent_is_empty() {
    assert!(Mod::read_options(&ScriptValue::Nil).unwrap().is_empty());
}

#[test]
fn options_errors_name_the_entry() {
    let bad = table(vec![], vec![("name", s("x"))]);
    let config = table(vec![option("a", None), bad], vec![]);
    let e = Mod::read_options(&config);
    assert!(matches!(e, Err(DescriptorError::Option { index: 1, field: Field::Default })));
    let config = table(vec![ScriptValue::Integer(3)], vec![]);
    assert!(matches!(Mod::read_options(&config), Err(DescriptorError::Option { index: 0, field: Field::Entry })));
    let noname = table(vec![], vec![("default", ScriptValue::Integer(1))]);
    let config = table(vec![noname], vec![]);
    assert!(matches!(Mod::read_options(&config), Err(DescriptorError::Option { index: 0, field: Field::OptionName })));
    let noitems = table(vec![], vec![("name", s("x")), ("default", ScriptValue::Integer(1))]);
    let config = table(vec![noitems], vec![]);
    assert!(matches!(Mod::read_options(&config), Err(DescriptorError::Option { index: 0, field: Field::Items })));
    let baditem = table(vec![], vec![
        ("name", s("x")),
        ("default", ScriptValue::Integer(1)),
        ("options", table(vec![table(vec![], vec![])], vec![])),
    ]);
    let config = table(vec![baditem], vec![]);
    assert!(matches!(Mod::read_options(&config), Err(DescriptorError::Option { index: 0, field: Field::ItemData(0) })));
}
