use json_flatten::document::Node;
use json_flatten::flat_map::{FlatMap, FlatValue};
use json_flatten::json::{flatten_json, node_from_json, object_from_flat, object_from_json};
use serde_json::{Number, Value};

fn parse(text: &str) -> Value {
    serde_json::from_str(text).unwrap()
}

fn object(text: &str) -> serde_json::Map<String, Value> {
    match parse(text) {
        Value::Object(map) => map,
        other => panic!("not an object: {}", other),
    }
}

fn keys(map: &serde_json::Map<String, Value>) -> Vec<String> {
    map.keys().cloned().collect()
}

fn text(s: &str) -> Value {
    Value::String(s.to_string())
}

#[test]
fn no_flattening() {
    let json = object(
        r#"{
          "id": "287947",
          "title": "Shazam!",
          "release_date": 1553299200,
          "genres": [
            "Action",
            "Comedy",
            "Fantasy"
          ]
        }"#,
    );
    let flat = flatten_json(&json).unwrap_or_else(|_| panic!("Failed to flatten json"));

    println!(
        "got:\n{}\nexpected:\n{}\n",
        serde_json::to_string_pretty(&flat).unwrap(),
        serde_json::to_string_pretty(&json).unwrap()
    );

    assert_eq!(flat, json);
}

#[test]
fn flatten_object() {
    let json = object(
        r#"{
          "a": {
            "b": "c",
            "d": "e",
            "f": "g"
          }
        }"#,
    );
    let flat = flatten_json(&json).unwrap_or_else(|_| panic!("Failed to flatten json"));

    assert_eq!(
        &flat,
        parse(
            r#"{
                "a.b": "c",
                "a.d": "e",
                "a.f": "g"
            }"#
        )
        .as_object()
        .unwrap()
    );
}

#[test]
fn flatten_array() {
    let json = object(
        r#"{
          "a": [
            { "b": "c" },
            { "b": "d" },
            { "b": "e" }
          ]
        }"#,
    );
    let flat = flatten_json(&json).unwrap_or_else(|_| panic!("Failed to flatten json"));

    assert_eq!(
        &flat,
        parse(
            r#"{
                "a.b": ["c", "d", "e"]
            }"#
        )
        .as_object()
        .unwrap()
    );

    // here we must keep 42 in "a"
    let json = object(
        r#"{
          "a": [
            42,
            { "b": "c" },
            { "b": "d" },
            { "b": "e" }
          ]
        }"#,
    );
    let flat = flatten_json(&json).unwrap_or_else(|_| panic!("Failed to flatten json"));

    assert_eq!(
        &flat,
        parse(
            r#"{
                "a": 42,
                "a.b": ["c", "d", "e"]
            }"#
        )
        .as_object()
        .unwrap()
    );
}

#[test]
fn collision_with_object() {
    let json = object(
        r#"{
          "a": {
            "b": "c"
          },
          "a.b": "d"
        }"#,
    );
    let flat = flatten_json(&json).unwrap_or_else(|_| panic!("Failed to flatten json"));

    assert_eq!(
        &flat,
        parse(
            r#"{
                "a.b": ["c", "d"]
            }"#
        )
        .as_object()
        .unwrap()
    );
}

#[test]
fn collision_with_array() {
    let json = object(
        r#"{
          "a": [
            { "b": "c" },
            { "b": "d", "c": "e" },
            [35]
          ],
          "a.b": "f"
        }"#,
    );
    let flat = flatten_json(&json).unwrap_or_else(|_| panic!("Failed to flatten json"));

    assert_eq!(
        &flat,
        parse(
            r#"{
                "a.b": ["c", "d", "f"],
                "a.c": "e",
                "a": 35
            }"#
        )
        .as_object()
        .unwrap()
    );
}

#[test]
fn flatten_nested_arrays() {
    let json = object(
        r#"{
          "a": [
            ["b", "c"],
            { "d": "e" },
            ["f", "g"],
            [
                { "h": "i" },
                { "d": "j" }
            ],
            ["k", "l"]
          ]
        }"#,
    );
    let flat = flatten_json(&json).unwrap_or_else(|_| panic!("Failed to flatten json"));

    assert_eq!(
        &flat,
        parse(
            r#"{
                "a": ["b", "c", "f", "g", "k", "l"],
                "a.d": ["e", "j"],
                "a.h": "i"
            }"#
        )
        .as_object()
        .unwrap()
    );
}

#[test]
fn flatten_nested_arrays_and_objects() {
    let json = object(
        r#"{
          "a": [
            "b",
            ["c", "d"],
            { "e": ["f", "g"] },
            [
                { "h": "i" },
                { "e": ["j", { "z": "y" }] }
            ],
            ["l"],
            "m"
          ]
        }"#,
    );
    let flat = flatten_json(&json).unwrap_or_else(|_| panic!("Failed to flatten json"));

    println!("{}", serde_json::to_string_pretty(&flat).unwrap());

    assert_eq!(
        &flat,
        parse(
            r#"{
                "a": ["b", "c", "d", "l", "m"],
                "a.e": ["f", "g", "j"],
                "a.h": "i",
                "a.e.z": "y"
            }"#
        )
        .as_object()
        .unwrap()
    );
}

#[test]
fn json_keys_come_in_order_of_first_occurrence() {
    let json = object(
        r#"{
          "a": [
            { "b": "c" },
            { "b": "d", "c": "e" },
            [35]
          ],
          "a.b": "f"
        }"#,
    );
    let flat = flatten_json(&json).unwrap();
    assert_eq!(keys(&flat), vec!["a.b".to_string(), "a.c".to_string(), "a".to_string()]);

    let json = object(
        r#"{
          "a": [
            "b",
            ["c", "d"],
            { "e": ["f", "g"] },
            [
                { "h": "i" },
                { "e": ["j", { "z": "y" }] }
            ],
            ["l"],
            "m"
          ]
        }"#,
    );
    let flat = flatten_json(&json).unwrap();
    assert_eq!(
        keys(&flat),
        vec!["a".to_string(), "a.e".to_string(), "a.h".to_string(), "a.e.z".to_string()]
    );
}

#[test]
fn json_walk_follows_insertion_order() {
    let mut json = serde_json::Map::new();
    json.insert("z".to_string(), text("first"));
    let mut inner = serde_json::Map::new();
    inner.insert("k".to_string(), text("second"));
    json.insert("b".to_string(), Value::Object(inner));
    json.insert("a".to_string(), text("third"));
    json.insert("b.k".to_string(), text("fourth"));

    let flat = flatten_json(&json).unwrap();
    assert_eq!(keys(&flat), vec!["z".to_string(), "b.k".to_string(), "a".to_string()]);
    assert_eq!(flat["b.k"], Value::Array(vec![text("second"), text("fourth")]));
}

#[test]
fn json_identity_on_flat_input() {
    let json = object(
        r#"{"s": "text", "n": 7, "neg": -3, "half": 0.5, "yes": true, "no": false, "nil": null}"#,
    );
    let flat = flatten_json(&json).unwrap();
    assert_eq!(flat, json);
    assert_eq!(keys(&flat), keys(&json));
}

#[test]
fn json_reflattening_changes_nothing() {
    let json = object(
        r#"{"a": [1, {"b": [2, 3]}, {"b": 4}], "c": {"d": {"e": null}}, "a.b": true}"#,
    );
    let once = flatten_json(&json).unwrap();
    let twice = flatten_json(&once).unwrap();
    assert_eq!(once, twice);
    assert_eq!(keys(&once), keys(&twice));
    assert_eq!(
        once,
        object(r#"{"a": 1, "a.b": [2, 3, 4, true], "c.d.e": null}"#)
    );
}

#[test]
fn json_three_scalars_collide_under_one_key() {
    let json = object(r#"{"a": {"b": {"c": 1}}, "a.b": {"c": 2}, "a.b.c": 3}"#);
    let flat = flatten_json(&json).unwrap();
    assert_eq!(flat, object(r#"{"a.b.c": [1, 2, 3]}"#));
}

#[test]
fn json_empty_containers_leave_nothing() {
    let json = object(r#"{"a": {}, "b": [], "c": [[], {}], "d": 1}"#);
    let flat = flatten_json(&json).unwrap();
    assert_eq!(flat, object(r#"{"d": 1}"#));

    let flat = flatten_json(&serde_json::Map::new()).unwrap();
    assert!(flat.is_empty());
}

#[test]
fn json_array_of_one_scalar_is_held_bare() {
    let json = object(r#"{"a": ["only"], "b": [["x"], "y"]}"#);
    let flat = flatten_json(&json).unwrap();
    assert_eq!(flat, object(r#"{"a": "only", "b": ["x", "y"]}"#));
}

#[test]
fn json_input_is_left_as_it_was() {
    let json = object(r#"{"a": {"b": [1, 2]}}"#);
    let copy = json.clone();
    let _ = flatten_json(&json).unwrap();
    assert_eq!(json, copy);
}

#[test]
fn node_from_json_keeps_shape_and_scalars() {
    let value = parse(r#"{"k": [1, "two", {"n": null}], "t": true}"#);
    let node = node_from_json(&value);
    let expected = Node::Object(vec![
        (
            "k".to_string(),
            Node::Array(vec![
                Node::Scalar(Value::Number(Number::from(1))),
                Node::Scalar(text("two")),
                Node::Object(vec![("n".to_string(), Node::Scalar(Value::Null))]),
            ]),
        ),
        ("t".to_string(), Node::Scalar(Value::Bool(true))),
    ]);
    assert_eq!(node, expected);

    assert_eq!(node_from_json(&text("x")), Node::Scalar(text("x")));
    assert_eq!(node_from_json(&parse("[]")), Node::Array(vec![]));
}

#[test]
fn object_from_json_lists_fields_in_order() {
    let json = object(r#"{"z": 1, "a": [2]}"#);
    let fields = object_from_json(&json);
    assert_eq!(
        fields,
        vec![
            ("z".to_string(), Node::Scalar(Value::Number(Number::from(1)))),
            (
                "a".to_string(),
                Node::Array(vec![Node::Scalar(Value::Number(Number::from(2)))])
            ),
        ]
    );
}

#[test]
fn object_from_flat_holds_sequences_as_arrays() {
    let mut flat: FlatMap<Value> = FlatMap::new();
    flat.record("x".to_string(), text("one"));
    flat.record("y".to_string(), Value::Bool(false));
    flat.record("x".to_string(), text("two"));
    assert_eq!(
        flat.entries(),
        &vec![
            ("x".to_string(), FlatValue::Sequence(vec![text("one"), text("two")])),
            ("y".to_string(), FlatValue::Scalar(Value::Bool(false))),
        ]
    );

    let json = object_from_flat(flat);
    assert_eq!(keys(&json), vec!["x".to_string(), "y".to_string()]);
    assert_eq!(json["x"], Value::Array(vec![text("one"), text("two")]));
    assert_eq!(json["y"], Value::Bool(false));
    assert_eq!(json.len(), 2);
}
