use lh_mount::record::TableEntry;
use lh_mount::table::Table;
use serde_json::Value;

fn to_json(entry: &TableEntry) -> Value {
    let mut object = serde_json::Map::new();
    object.insert(
        "labels".to_string(),
        Value::Array(entry.labels.iter().map(|l| Value::String(l.clone())).collect()),
    );
    object.insert("name".to_string(), Value::String(entry.name.clone()));
    let mut children = serde_json::Map::new();
    for (key, child) in entry.children.iter() {
        children.insert(key.clone(), to_json(child));
    }
    object.insert("children".to_string(), Value::Object(children));
    object.insert(
        "parent".to_string(),
        match &entry.parent {
            Some(list) => Value::Array(list.iter().map(|p| Value::String(p.clone())).collect()),
            None => Value::Null,
        },
    );
    Value::Object(object)
}

fn strings(value: &Value) -> Vec<String> {
    value.as_array().unwrap().iter().map(|s| s.as_str().unwrap().to_string()).collect()
}

fn from_json(value: &Value) -> TableEntry {
    TableEntry {
        labels: strings(&value["labels"]),
        name: value["name"].as_str().unwrap().to_string(),
        children: value["children"]
            .as_object()
            .unwrap()
            .iter()
            .map(|(k, v)| (k.clone(), from_json(v)))
            .collect(),
        parent: if value["parent"].is_null() { None } else { Some(strings(&value["parent"])) },
    }
}

#[test]
fn the_store_survives_json() {
    let tag = |v: i64| format!("labels = {{name=\"linear\",value={}}}", v);
    let mut table = Table::new();
    table.derive("/d/b", "/d/a", Some(&tag(2)), Some(&tag(3))).unwrap();
    table.derive("/d/c", "/d/b", Some(&tag(1)), None).unwrap();
    table.derive("/d/e", "/d/a", None, None).unwrap();
    table.insert("/d/z", Some(&tag(1))).unwrap();

    let mut top = serde_json::Map::new();
    for (key, entry) in table.roots().iter() {
        top.insert(key.clone(), to_json(entry));
    }
    let text = serde_json::to_string(&Value::Object(top)).unwrap();
    assert!(text.contains("\"/d/a\":{"));
    assert!(text.contains("\"labels\":[\"linear 3\"]"));
    assert!(text.contains("\"parent\":[\"/d/a\"]"));
    assert!(text.contains("\"parent\":null"));

    let parsed: Value = serde_json::from_str(&text).unwrap();
    let roots: Vec<(String, TableEntry)> =
        parsed.as_object().unwrap().iter().map(|(k, v)| (k.clone(), from_json(v))).collect();
    let loaded = Table::from_roots(&roots).unwrap();
    for key in ["/d/a", "/d/b", "/d/c", "/d/e", "/d/z"] {
        assert!(loaded.contains(key));
    }
    assert!(loaded.contains_key("/d/b", "/d/a"));
    assert!(loaded.contains_key("/d/c", "/d/b"));
    assert!(loaded.contains_key("/d/e", "/d/a"));
    assert_eq!(loaded.roots().len(), 2);
}
