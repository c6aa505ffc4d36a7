use pot_diff::change::{Change, Diff};
use pot_diff::differ::{
    add_estimates, create_diff, find_estimated, find_value, multiply_estimates, Counter,
};
use pot_diff::estimate::{estimate_usize_bytes, float_size, integer_size, Estimated};
use pot_diff::holder::Diffable;
use pot_diff::value::{Float, Integer, Value};

fn number(value: i8) -> Value {
    Value::Integer(Integer::I8(value))
}

fn numbers(values: &[i8]) -> Value {
    Value::Sequence(values.iter().map(|value| number(*value)).collect())
}

fn text(value: &str) -> Value {
    Value::String(String::from(value))
}

fn estimate(value: &Value) -> usize {
    Estimated::from_value(value).unwrap().estimated_bytes
}

fn samples() -> Vec<Value> {
    vec![
        Value::Nil,
        Value::Unit,
        Value::Bool(true),
        number(1),
        Value::Integer(Integer::U8(1)),
        Value::Float(Float::from_double(0.5f64.to_bits())),
        Value::Float(Float::from_double(0.1f64.to_bits())),
        Value::Bytes(vec![0xff, 2, 3]),
        text("abc"),
        text("a much longer string that is worth more than a few changes"),
        numbers(&[]),
        numbers(&[1]),
        numbers(&[1, 2, 3, 4, 5, 6]),
        numbers(&[6, 5, 4, 3, 2, 1]),
        numbers(&[2, 3, 4, 5, 6, 7, 8]),
        Value::Sequence(vec![numbers(&[1, 2, 3, 4, 5, 6]), text("xyz"), numbers(&[9])]),
        Value::Sequence(vec![numbers(&[1, 2, 3, 4, 5, 7]), text("xyz"), numbers(&[])]),
        Value::Mappings(vec![]),
        Value::Mappings(vec![(number(1), number(2))]),
        Value::Mappings(vec![(number(0), number(0)), (number(1), number(3))]),
        Value::Mappings(vec![(text("name"), text("first")), (text("tags"), numbers(&[1, 2, 3]))]),
        Value::Mappings(vec![(text("name"), text("second")), (text("tags"), numbers(&[1, 3]))]),
        Value::Mappings(vec![
            (numbers(&[1, 2, 3, 4, 5]), text("by a sequence")),
            (text("tags"), numbers(&[1, 2, 3])),
        ]),
        Value::Mappings(vec![
            (numbers(&[1, 2, 3, 4, 6]), text("by a sequence")),
            (text("name"), text("first")),
            (text("tags"), numbers(&[1, 2, 3])),
        ]),
    ]
}

#[test]
fn applying_a_diff_gives_the_updated_value() {
    for original in samples() {
        for updated in samples() {
            let diff = Diff::between_values(&original, updated.clone());
            let applied = diff.apply_to_value(original.clone()).unwrap();
            assert_eq!(applied, updated, "{} from {:?}", diff.to_string(), original);
        }
    }
}

#[test]
fn a_diff_never_ends_in_exit() {
    for original in samples() {
        for updated in samples() {
            let diff = Diff::between_values(&original, updated);
            assert!(!matches!(diff.changes.last(), Some(Change::Exit)));
        }
    }
}

#[test]
fn a_value_differs_from_itself_by_nothing() {
    for value in samples() {
        let diff = Diff::between_values(&value, value.clone());
        assert_eq!(diff.changes, vec![]);
        assert_eq!(diff.to_string(), "");
        let decoded = Diff::deserialize(&diff.serialize()).unwrap();
        assert_eq!(decoded.changes, diff.changes);
        assert_eq!(decoded.apply_to_value(value.clone()).unwrap(), value);
    }
}

#[test]
fn diffs_survive_their_binary_form() {
    for original in samples() {
        for updated in samples() {
            let diff = Diff::between_values(&original, updated.clone());
            let decoded = Diff::deserialize(&diff.serialize()).unwrap();
            assert_eq!(decoded.apply_to_value(original.clone()).unwrap(), updated);
            assert_eq!(decoded.to_string(), diff.to_string());
        }
    }
}

#[test]
fn a_diff_costs_no_more_than_the_value_and_one() {
    for original in samples() {
        for updated in samples() {
            let tree = Estimated::from_value(&updated).unwrap();
            let mut counter = Counter::new();
            create_diff(None, &original, &tree, false, &mut counter);
            let diff = Diff::between_values(&original, updated.clone());
            let replaced = diff.changes == vec![Change::Replace { index: None, value: updated }];
            // The script is kept where it costs no more than the value.
            assert_eq!(replaced && original != tree.to_value(), counter.estimated_bytes > tree.estimated_bytes);
        }
    }
}

#[test]
fn the_text_of_a_diff_depends_on_its_changes_alone() {
    let first = Diff::between_values(&numbers(&[1, 2]), numbers(&[1, 2, 3]));
    let second = Diff {
        changes: vec![
            Change::EnterSequence { index: None, key: false },
            Change::Insert { index: 2, value: number(3) },
        ],
    };
    assert_eq!(first.changes, second.changes);
    assert_eq!(first.to_string(), second.to_string());
    assert_eq!(first.to_string(), first.to_string());
}

#[test]
fn exits_show_the_bracket_they_close() {
    let diff = Diff {
        changes: vec![
            Change::Exit,
            Change::EnterMap { index: None, key: true },
            Change::EnterSequence { index: Some(12), key: true },
            Change::EnterMap { index: Some(3), key: false },
            Change::Exit,
            Change::Exit,
            Change::ReplaceKey { index: 1, key: Value::Unit },
            Change::ReplaceMapping { index: 2, key: Value::Nil, value: Value::Bool(true) },
            Change::Remove { index: 10, length: 200 },
            Change::InsertMapping { index: 0, key: number(1), value: number(2) },
        ],
    };
    assert_eq!(diff.to_string(), "?{;[@12;{3;}]~@1;()~2;none;true-10;200+0;1;2}");
}

#[test]
fn a_matched_key_brings_its_value_up_to_date() {
    let original = Value::Mappings(vec![(number(1), number(2))]);
    let updated = Value::Mappings(vec![(number(0), number(0)), (number(1), number(3))]);
    let diff = Diff::between_values(&original, updated.clone());
    assert_eq!(diff.to_string(), "{;+0;0;0~1;3}");
    assert_eq!(diff.apply_to_value(original).unwrap(), updated);
}

#[test]
fn estimates_follow_the_shape_of_the_value() {
    assert_eq!(estimate(&Value::Nil), 1);
    assert_eq!(estimate(&Value::Unit), 1);
    assert_eq!(estimate(&Value::Bool(false)), 2);
    assert_eq!(estimate(&number(1)), 2);
    assert_eq!(estimate(&Value::Integer(Integer::U16(1))), 3);
    assert_eq!(estimate(&Value::Integer(Integer::I32(1))), 5);
    assert_eq!(estimate(&Value::Integer(Integer::U64(1))), 9);
    assert_eq!(estimate(&Value::Integer(Integer::I128(1))), 17);
    assert_eq!(estimate(&Value::Float(Float::Single(0.1f32.to_bits()))), 5);
    assert_eq!(estimate(&Value::Float(Float::Double(0.5f64.to_bits()))), 5);
    assert_eq!(estimate(&Value::Float(Float::Double(0.1f64.to_bits()))), 9);
    assert_eq!(estimate(&Value::Bytes(vec![0; 10])), 11);
    assert_eq!(estimate(&text("h\u{e9}")), 4);
    assert_eq!(estimate(&numbers(&[])), 1);
    assert_eq!(estimate(&numbers(&[1, 2, 3])), 4 + 6);
    assert_eq!(estimate(&Value::Mappings(vec![])), 1);
    assert_eq!(
        estimate(&Value::Mappings(vec![(number(1), text("ab")), (Value::Nil, numbers(&[1]))])),
        5 + (2 + 3) + (1 + 4)
    );
}

#[test]
fn estimated_trees_stand_for_their_value() {
    for value in samples() {
        let tree = Estimated::from_value(&value).unwrap();
        assert_eq!(tree.to_value(), value);
        assert!(tree.eq_value(&value));
        for other in samples() {
            assert_eq!(tree.eq_value(&other), value == other);
        }
    }
}

#[test]
fn mappings_are_equal_only_entry_by_entry() {
    let short = Value::Mappings(vec![(number(1), number(2))]);
    let long = Value::Mappings(vec![(number(1), number(2)), (number(3), number(4))]);
    assert_ne!(short, long);
    assert!(!Estimated::from_value(&short).unwrap().eq_value(&long));
    assert!(!Estimated::from_value(&long).unwrap().eq_value(&short));
    assert_ne!(number(1), Value::Integer(Integer::U8(1)));
    assert_ne!(Value::Bytes(b"a".to_vec()), text("a"));
}

#[test]
fn indices_are_estimated_by_their_size() {
    assert_eq!(estimate_usize_bytes(0), 1);
    assert_eq!(estimate_usize_bytes(255), 1);
    assert_eq!(estimate_usize_bytes(256), 2);
    assert_eq!(estimate_usize_bytes(65535), 2);
    assert_eq!(estimate_usize_bytes(65536), 4);
    assert_eq!(estimate_usize_bytes(u32::MAX as usize), 4);
    assert_eq!(estimate_usize_bytes(u32::MAX as usize + 1), 8);
    assert_eq!(integer_size(Integer::U8(255)), 1);
    assert_eq!(integer_size(Integer::I16(0)), 2);
    assert_eq!(integer_size(Integer::U32(0)), 4);
    assert_eq!(integer_size(Integer::I64(0)), 8);
    assert_eq!(integer_size(Integer::U128(0)), 16);
    assert_eq!(float_size(Float::Double(f64::MAX.to_bits())), 8);
    assert_eq!(float_size(Float::Double(f64::NAN.to_bits())), 8);
    assert_eq!(float_size(Float::Double(2f64.to_bits())), 4);
}

#[test]
fn estimates_stay_at_the_largest_number() {
    assert_eq!(add_estimates(1, 2), 3);
    assert_eq!(add_estimates(usize::MAX, 1), usize::MAX);
    assert_eq!(add_estimates(usize::MAX - 1, 1), usize::MAX);
    assert_eq!(multiply_estimates(8, 3), 24);
    assert_eq!(multiply_estimates(usize::MAX, 2), usize::MAX);
}

#[test]
fn searches_return_the_first_match_or_the_length() {
    let values = vec![number(1), number(2), number(1), number(3)];
    let one = Estimated::from_value(&number(1)).unwrap();
    assert_eq!(find_value(&values, 0, &one), 0);
    assert_eq!(find_value(&values, 1, &one), 2);
    assert_eq!(find_value(&values, 3, &one), 4);
    let trees: Vec<Estimated> =
        values.iter().map(|value| Estimated::from_value(value).unwrap()).collect();
    assert_eq!(find_estimated(&trees, 1, &number(3)), 3);
    assert_eq!(find_estimated(&trees, 0, &number(4)), 4);
}

#[test]
fn floats_have_one_form() {
    assert_eq!(Float::from_double(1f64.to_bits()), Float::Single(1f32.to_bits()));
    assert_eq!(Float::from_double(0.1f64.to_bits()), Float::Double(0.1f64.to_bits()));
    assert_eq!(
        Float::from_double(f64::from(0.1f32).to_bits()),
        Float::Single(0.1f32.to_bits())
    );
    assert_eq!(Float::Single(7).bits(), 7);
    assert_eq!(Float::Double(u64::MAX).bits(), u64::MAX);
}

#[test]
fn a_holder_diffs_only_what_was_marked() {
    let mut holder = Diffable::new(numbers(&[1, 2]));
    assert!(holder.diff(numbers(&[1, 2, 3])).is_none());
    assert_eq!(holder.latest, numbers(&[1, 2]));

    holder.mark_dirty();
    let diff = holder.diff(numbers(&[1, 2, 3])).unwrap();
    assert_eq!(diff.to_string(), "[;+2;3]");
    assert_eq!(holder.latest, numbers(&[1, 2, 3]));
    assert!(!holder.dirty);

    // Marked, and yet nothing changed.
    holder.mark_dirty();
    assert!(holder.diff(numbers(&[1, 2, 3])).is_none());
    assert!(!holder.dirty);

    holder.mark_dirty();
    let diff = holder.diff(numbers(&[1, 2])).unwrap();
    assert_eq!(diff.to_string(), "[;$2]");
}
