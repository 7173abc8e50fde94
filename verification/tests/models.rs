use gron::engine::Traversal;
use gron::json_to_gron;
use gron::value::{Object, Value};
use rustc_serialize::json::Json;
use serde_json::value::Value as SerdeValue;

fn value_of_serde(json: &SerdeValue) -> Value {
    match json {
        SerdeValue::Null => Value::Null,
        SerdeValue::Bool(value) => Value::Bool(*value),
        SerdeValue::Number(value) => {
            if let Some(n) = value.as_i64() {
                Value::Integer(i128::from(n))
            } else if let Some(n) = value.as_u64() {
                Value::Integer(i128::from(n))
            } else {
                Value::Float(value.to_string())
            }
        }
        SerdeValue::String(value) => Value::String(value.clone()),
        SerdeValue::Array(items) => Value::Array(items.iter().map(value_of_serde).collect()),
        SerdeValue::Object(members) => {
            let mut object = Object::new();
            for (key, value) in members.iter() {
                object.insert(key.clone(), value_of_serde(value));
            }
            Value::Object(object)
        }
    }
}

fn value_of_rustc_serialize(json: &Json) -> Value {
    match json {
        Json::I64(value) => Value::Integer(i128::from(*value)),
        Json::U64(value) => Value::Integer(i128::from(*value)),
        Json::F64(value) => Value::Float(value.to_string()),
        Json::String(value) => Value::String(value.clone()),
        Json::Boolean(value) => Value::Bool(*value),
        Json::Array(items) => Value::Array(items.iter().map(value_of_rustc_serialize).collect()),
        Json::Object(members) => {
            let mut object = Object::new();
            for (key, value) in members.iter() {
                object.insert(key.clone(), value_of_rustc_serialize(value));
            }
            Value::Object(object)
        }
        Json::Null => Value::Null,
    }
}

fn whole_text(value: &Value) -> String {
    let mut buf = Vec::new();
    json_to_gron(&mut buf, "json", value);
    String::from_utf8(buf).unwrap()
}

fn line_by_line(value: &Value) -> String {
    let mut walk = Traversal::new("json", value);
    let mut buf = Vec::new();
    while let Some(line) = walk.next_line() {
        assert_eq!(line.last(), Some(&b'\n'));
        buf.extend_from_slice(&line);
    }
    assert!(walk.next_line().is_none());
    String::from_utf8(buf).unwrap()
}

fn assert_both_models(json_src: &str, gron: &str) {
    let from_serde = value_of_serde(&serde_json::from_str::<SerdeValue>(json_src).unwrap());
    assert_eq!(whole_text(&from_serde), gron);
    assert_eq!(line_by_line(&from_serde), gron);

    let from_rustc_serialize = value_of_rustc_serialize(&Json::from_str(json_src).unwrap());
    assert_eq!(whole_text(&from_rustc_serialize), gron);
    assert_eq!(line_by_line(&from_rustc_serialize), gron);
}

#[test]
fn json_struct_test_simple() {
    assert_both_models(r#""x""#, "json = \"x\"\n");
    assert_both_models(r#"1"#, "json = 1\n");
    assert_both_models(r#"-1"#, "json = -1\n");
    assert_both_models(r#"1.5"#, "json = 1.5\n");
    assert_both_models(r#"null"#, "json = null\n");
    assert_both_models(r#"true"#, "json = true\n");
}

#[test]
fn json_struct_test_map() {
    assert_both_models(
        r#"{"x": 1, "y": 2}"#,
        "\
            json = {}\n\
            json.x = 1\n\
            json.y = 2\n",
    );
}

#[test]
fn json_struct_test_vec() {
    assert_both_models(
        r#"[1, 2, 3]"#,
        "\
            json = []\n\
            json[0] = 1\n\
            json[1] = 2\n\
            json[2] = 3\n\
            ",
    );
}

#[test]
fn json_struct_test_obj_in_list() {
    assert_both_models(
        r#"[1, {"x": 1, "y": 2}, 3]"#,
        "\
            json = []\n\
            json[0] = 1\n\
            json[1] = {}\n\
            json[1].x = 1\n\
            json[1].y = 2\n\
            json[2] = 3\n\
            ",
    );
}

#[test]
fn json_struct_test_list_in_obj() {
    assert_both_models(
        r#"{"a": 1, "x": [7, 8], "y": 2}"#,
        "\
            json = {}\n\
            json.a = 1\n\
            json.x = []\n\
            json.x[0] = 7\n\
            json.x[1] = 8\n\
            json.y = 2\n\
            ",
    );
}

#[test]
fn keys_given_out_of_order_come_out_ascending() {
    assert_both_models(
        r#"{"y": 2, "b": {"z": null, "a": false}, "x": 1}"#,
        "\
            json = {}\n\
            json.b = {}\n\
            json.b.a = false\n\
            json.b.z = null\n\
            json.x = 1\n\
            json.y = 2\n",
    );
}

#[test]
fn largest_and_smallest_integers_of_both_models() {
    assert_both_models(r#"18446744073709551615"#, "json = 18446744073709551615\n");
    assert_both_models(r#"-9223372036854775808"#, "json = -9223372036854775808\n");
    assert_both_models(r#"0"#, "json = 0\n");
}

#[test]
fn escapes_of_a_parsed_string() {
    assert_both_models(r#""a\"b\\c\nd\te\u0001f""#, "json = \"a\\\"b\\\\c\\nd\\te\\u0001f\"\n");
    assert_both_models(r#""héllo 世界""#, "json = \"h\u{e9}llo \u{4e16}\u{754c}\"\n");
}
