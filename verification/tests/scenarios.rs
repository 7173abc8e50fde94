use gron::json_to_gron;
use gron::value::{Object, Value};

fn assert_equal(json: &Value, gron: &str) {
    let mut buf = Vec::new();
    json_to_gron(&mut buf, "json", json);
    assert_eq!(String::from_utf8(buf).unwrap(), gron);
}

fn num(n: i128) -> Value {
    Value::Integer(n)
}

fn object(entries: Vec<(&str, Value)>) -> Value {
    let mut object = Object::new();
    for (key, value) in entries {
        object.insert(key.to_string(), value);
    }
    Value::Object(object)
}

#[test]
fn lib_test_simple() {
    assert_equal(&Value::String("x".to_string()), "json = \"x\"\n");
    assert_equal(&num(1), "json = 1\n");
    assert_equal(&num(-1), "json = -1\n");
    assert_equal(&Value::Float(format!("{}", 1.5f64)), "json = 1.5\n");
    assert_equal(&Value::Null, "json = null\n");
    assert_equal(&Value::Bool(true), "json = true\n");
}

#[test]
fn lib_test_map() {
    assert_equal(
        &object(vec![("x", num(1)), ("y", num(2))]),
        "\
            json = {}\n\
            json.x = 1\n\
            json.y = 2\n",
    );
}

#[test]
fn lib_test_vec() {
    assert_equal(
        &Value::Array(vec![num(1), num(2), num(3)]),
        "\
            json = []\n\
            json[0] = 1\n\
            json[1] = 2\n\
            json[2] = 3\n\
            ",
    );
}

#[test]
fn lib_test_obj_in_list() {
    assert_equal(
        &Value::Array(vec![num(1), object(vec![("x", num(1)), ("y", num(2))]), num(3)]),
        "\
            json = []\n\
            json[0] = 1\n\
            json[1] = {}\n\
            json[1].x = 1\n\
            json[1].y = 2\n\
            json[2] = 3\n\
            ",
    );
}

#[test]
fn lib_test_list_in_obj() {
    assert_equal(
        &object(vec![("a", num(1)), ("x", Value::Array(vec![num(7), num(8)])), ("y", num(2))]),
        "\
            json = {}\n\
            json.a = 1\n\
            json.x = []\n\
            json.x[0] = 7\n\
            json.x[1] = 8\n\
            json.y = 2\n\
            ",
    );
}
