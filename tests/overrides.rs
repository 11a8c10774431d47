use dst_mods::{override_paths, Override, OverrideFileError, ScriptTable, ScriptValue};

fn table(items: Vec<ScriptValue>, fields: Vec<(&str, ScriptValue)>) -> ScriptValue {
    ScriptValue::Table(ScriptTable {
        items,
        fields: fields.into_iter().map(|(k, v)| (k.to_string(), v)).collect(),
    })
}

fn entry(opts: Vec<(&str, ScriptValue)>) -> ScriptValue {
    table(vec![], vec![("configuration_options", table(vec![], opts)), ("enabled", ScriptValue::Boolean(true))])
}

fn pairs(v: &[(&str, &str)]) -> Vec<(String, String)> {
    v.iter().map(|(k, x)| (k.to_string(), x.to_string())).collect()
}

fn empty() -> Override {
    Override::load("/save", &table(vec![], vec![])).ok().unwrap()
}

#[test]
fn parse_insert_serialize_scenario() {
    let file = table(vec![], vec![("workshop-42", entry(vec![("speed", ScriptValue::Integer(2))]))]);
    let mut o = Override::load("/save", &file).ok().unwrap();
    assert_eq!(o.list(42).unwrap(), &pairs(&[("speed", "2")]));
    o.insert(42, pairs(&[("power", "true")]));
    assert_eq!(o.list(42).unwrap(), &pairs(&[("speed", "2"), ("power", "true")]));
    assert_eq!(
        o.dump(),
        "return {\n\t[\"workshop-42\"] = { configuration_options = {\n\t\tspeed=2,\n\t\tpower=true,\n\t}, enabled = true },\n}\n"
    );
}

#[test]
fn paths_of_both_worlds() {
    let o = empty();
    assert_eq!(o.paths, override_paths("/save"));
    assert_eq!(o.paths[0], "/save/DoNotStarveTogether/BearDediServer/world0/modoverrides.lua");
    assert_eq!(o.paths[1], "/save/DoNotStarveTogether/BearDediServer/world1/modoverrides.lua");
    let plan = o.sink();
    assert_eq!(plan.primary, o.paths[0]);
    assert_eq!(plan.copies, vec![o.paths[1].clone()]);
    assert_eq!(plan.text, "return {\n}\n");
}

#[test]
fn empty_options_render_braces() {
    let mut o = empty();
    o.insert(7, vec![]);
    assert_eq!(o.dump(), "return {\n\t[\"workshop-7\"] = { configuration_options = {}, enabled = true },\n}\n");
}

#[test]
fn merge_adds_and_overwrites() {
    let mut o = empty();
    o.insert(1, pairs(&[("a", "1")]));
    o.insert(1, pairs(&[("b", "2")]));
    assert_eq!(o.list(1).unwrap(), &pairs(&[("a", "1"), ("b", "2")]));
    o.insert(1, pairs(&[("a", "3")]));
    assert_eq!(o.list(1).unwrap(), &pairs(&[("a", "3"), ("b", "2")]));
}

#[test]
fn remove_is_idempotent() {
    let mut o = empty();
    o.insert(1, pairs(&[("a", "1")]));
    o.insert(2, pairs(&[("b", "2")]));
    o.remove(1);
    let once = o.dump();
    o.remove(1);
    assert_eq!(o.dump(), once);
    o.remove(9);
    assert_eq!(o.dump(), once);
    assert!(o.list(1).is_none());
    assert!(o.list(2).is_some());
}

#[test]
fn parse_errors() {
    assert!(matches!(Override::load("/s", &ScriptValue::Nil), Err(OverrideFileError::NotATable)));
    let file = table(vec![], vec![("workshop-x", entry(vec![]))]);
    assert!(matches!(Override::load("/s", &file), Err(OverrideFileError::BadKey(k)) if k == "workshop-x"));
    let file = table(vec![], vec![("workshop-3", ScriptValue::Boolean(true))]);
    assert!(matches!(Override::load("/s", &file), Err(OverrideFileError::BadEntry(k)) if k == "workshop-3"));
    let file = table(vec![], vec![("workshop-3", table(vec![], vec![]))]);
    assert!(matches!(Override::load("/s", &file), Err(OverrideFileError::BadEntry(_))));
    let file = table(vec![], vec![("workshop-3", entry(vec![("f", ScriptValue::Other)]))]);
    assert!(matches!(Override::load("/s", &file), Err(OverrideFileError::BadValue(k)) if k == "workshop-3"));
}

#[test]
fn parse_renders_each_value() {
    let file = table(vec![], vec![(
        "workshop-5",
        entry(vec![
            ("b", ScriptValue::Boolean(false)),
            ("s", ScriptValue::Str("x".to_string())),
            ("n", ScriptValue::Number("0.5".to_string())),
        ]),
    )]);
    let o = Override::load("/s", &file).ok().unwrap();
    assert_eq!(o.list(5).unwrap(), &pairs(&[("b", "false"), ("s", "\"x\""), ("n", "0.5")]));
}
