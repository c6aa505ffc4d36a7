use pot_diff::binary::{decode, encode};
use pot_diff::change::Diff;
use pot_diff::value::{Float, Integer, Value};

fn number(value: i8) -> Value {
    Value::Integer(Integer::I8(value))
}

fn numbers(values: &[i8]) -> Value {
    Value::Sequence(values.iter().map(|value| number(*value)).collect())
}

fn map(entries: Vec<(Value, Value)>) -> Value {
    Value::Mappings(entries)
}

fn check(original: &Value, updated: &Value, diff_display: &str) {
    let diff = Diff::between_values(original, updated.clone());
    assert_eq!(diff.to_string(), diff_display);

    let applied = diff.apply_to_value(original.clone()).unwrap();
    assert_eq!(&applied, updated);

    let mut encoded = Vec::new();
    encode(&diff, &mut encoded);
    let decoded = decode(&encoded).unwrap();
    let applied = decoded.apply_to_value(original.clone()).unwrap();
    assert_eq!(&applied, updated);
}

#[test]
fn basic_sequence_apply() {
    check(&numbers(&[1]), &numbers(&[1]), "");
    check(&numbers(&[1, 2]), &numbers(&[1, 2, 3]), "[;+2;3]");
    check(&numbers(&[0, 1, 2, 3]), &numbers(&[2, 3]), "[;-0;2]");
    check(&numbers(&[3, 4]), &numbers(&[1, 2, 3, 4]), "[;+0;1+1;2]");
    check(&numbers(&[3, 4, 5]), &numbers(&[3, 4]), "[;$2]");

    check(
        &Value::Sequence(vec![numbers(&[1, 2]), numbers(&[2, 3, 4])]),
        &Value::Sequence(vec![numbers(&[1, 2, 3]), numbers(&[2, 3, 4])]),
        "[;[0;+2;3]]",
    );
    check(
        &Value::Sequence(vec![numbers(&[1]), numbers(&[2, 3, 4])]),
        &Value::Sequence(vec![numbers(&[0]), numbers(&[2, 3, 4])]),
        "[;~0;[0]]",
    );
}

#[test]
fn map_sequence_apply() {
    check(
        &map(vec![(number(1), number(2))]),
        &map(vec![(number(1), number(2)), (number(3), number(4))]),
        "{;+1;3;4}",
    );
    check(&map(vec![(number(1), number(2))]), &map(vec![(number(1), number(3))]), "{;~0;3}");
    check(
        &map(vec![(number(1), numbers(&[1, 3]))]),
        &map(vec![(number(1), numbers(&[2, 3]))]),
        "{;[0;~0;2]}",
    );
    check(
        &map(vec![(number(1), number(2)), (number(3), number(4))]),
        &map(vec![(number(3), number(4))]),
        "{;-0;1}",
    );
    check(
        &map(vec![(number(3), number(4))]),
        &map(vec![(number(1), number(2)), (number(3), number(4))]),
        "{;+0;1;2}",
    );
    check(
        &map(vec![(number(1), number(2)), (number(3), number(4))]),
        &map(vec![(number(1), number(2))]),
        "{;$1}",
    );
    check(
        &map(vec![(number(1), number(2)), (number(4), number(5))]),
        &map(vec![(number(3), number(4)), (number(4), number(5))]),
        "{;~0;3;4}",
    );
    check(&map(vec![(number(1), number(2))]), &map(vec![(number(3), number(4))]), "~;{3:4}");
    check(
        &map(vec![(numbers(&[1, 3, 4]), numbers(&[3, 4]))]),
        &map(vec![(numbers(&[2, 3, 4]), numbers(&[3, 4]))]),
        "{;[@0;~0;2]}",
    );
    check(
        &map(vec![(numbers(&[1, 3, 4]), numbers(&[3, 4]))]),
        &map(vec![(numbers(&[2]), numbers(&[3, 4]))]),
        "{;~@0;[2]}",
    );
}

#[test]
fn root_operations() {
    check(&number(1), &number(2), "~;2");
    check(&Value::Bool(true), &Value::Nil, "~;none");
    check(&Value::Bool(true), &Value::Bool(false), "~;false");
    check(
        &Value::Float(Float::from_double(0f64.to_bits())),
        &Value::Float(Float::from_double(1f64.to_bits())),
        "~;1",
    );
    check(
        &Value::Bytes(b"hello".to_vec()),
        &Value::Bytes(b"worl\xdd".to_vec()),
        "~;#|worl|dd",
    );
    check(
        &Value::String(String::from("hello")),
        &Value::String(String::from("world")),
        "~;\"world\"",
    );

    // replace instead of update
    check(&numbers(&[0, 1, 2, 3, 4, 5, 6, 7]), &numbers(&[1, 7]), "~;[1,7]")
}
