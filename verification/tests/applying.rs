use pot_diff::apply::{apply_changes_to_mappings, apply_changes_to_sequence, Error, Mismatch};
use pot_diff::change::{Change, Diff};
use pot_diff::value::{Integer, Value};

fn number(value: i8) -> Value {
    Value::Integer(Integer::I8(value))
}

fn numbers(values: &[i8]) -> Value {
    Value::Sequence(values.iter().map(|value| number(*value)).collect())
}

fn apply(changes: Vec<Change>, value: Value) -> Result<Value, Error> {
    Diff { changes }.apply_to_value(value)
}

fn mismatch(changes: Vec<Change>, value: Value) -> Mismatch {
    match apply(changes, value) {
        Err(Error::Structure(mismatch)) => mismatch,
        other => panic!("unexpected {:?}", other),
    }
}

fn enter() -> Change {
    Change::EnterSequence { index: None, key: false }
}

fn enter_map() -> Change {
    Change::EnterMap { index: None, key: false }
}

#[test]
fn empty_script_leaves_the_root() {
    assert_eq!(apply(vec![], numbers(&[1, 2])).unwrap(), numbers(&[1, 2]));
    assert_eq!(apply(vec![], Value::Unit).unwrap(), Value::Unit);
}

#[test]
fn root_replace_gives_the_value() {
    let replace = Change::Replace { index: None, value: number(7) };
    assert_eq!(apply(vec![replace.clone()], Value::Nil).unwrap(), number(7));
    assert_eq!(mismatch(vec![replace, Change::Exit], Value::Nil), Mismatch::TrailingChanges);
}

#[test]
fn only_replace_and_enter_start_a_script() {
    assert_eq!(mismatch(vec![Change::Exit], numbers(&[])), Mismatch::UnexpectedChange);
    assert_eq!(
        mismatch(vec![Change::Truncate { length: 0 }], numbers(&[])),
        Mismatch::UnexpectedChange
    );
    assert_eq!(
        mismatch(vec![Change::EnterSequence { index: Some(0), key: false }], numbers(&[])),
        Mismatch::UnexpectedChange
    );
    assert_eq!(
        mismatch(vec![Change::EnterSequence { index: None, key: true }], numbers(&[])),
        Mismatch::UnexpectedChange
    );
    assert_eq!(
        mismatch(vec![Change::Replace { index: Some(0), value: Value::Nil }], numbers(&[1])),
        Mismatch::UnexpectedChange
    );
}

#[test]
fn entering_needs_a_container_of_that_kind() {
    assert_eq!(mismatch(vec![enter()], Value::Mappings(vec![])), Mismatch::NotASequence);
    assert_eq!(mismatch(vec![enter()], number(1)), Mismatch::NotASequence);
    assert_eq!(mismatch(vec![enter_map()], numbers(&[])), Mismatch::NotMappings);
    assert_eq!(
        mismatch(
            vec![enter(), Change::EnterSequence { index: Some(0), key: false }],
            numbers(&[1])
        ),
        Mismatch::NotASequence
    );
    assert_eq!(
        mismatch(vec![enter(), Change::EnterMap { index: Some(0), key: false }], numbers(&[1])),
        Mismatch::NotMappings
    );
    assert_eq!(
        mismatch(vec![enter(), Change::EnterMap { index: Some(1), key: false }], numbers(&[1])),
        Mismatch::IndexOutOfBounds
    );
}

#[test]
fn sequence_changes_edit_in_place() {
    let changes = vec![
        enter(),
        Change::Replace { index: Some(1), value: number(20) },
        Change::Insert { index: 3, value: number(40) },
        Change::Insert { index: 0, value: number(0) },
        Change::Remove { index: 1, length: 2 },
        Change::Truncate { length: 2 },
    ];
    assert_eq!(apply(changes, numbers(&[1, 2, 3])).unwrap(), numbers(&[0, 3]));
}

#[test]
fn sequence_changes_check_their_bounds() {
    let cases = vec![
        Change::Replace { index: Some(2), value: Value::Nil },
        Change::Remove { index: 1, length: 2 },
        Change::Remove { index: 3, length: 0 },
        Change::Remove { index: usize::MAX, length: usize::MAX },
        Change::Truncate { length: 3 },
        Change::Insert { index: 3, value: Value::Nil },
        Change::EnterSequence { index: Some(2), key: false },
    ];
    for change in cases {
        assert_eq!(mismatch(vec![enter(), change], numbers(&[1, 2])), Mismatch::IndexOutOfBounds);
    }
    // The bounds themselves are within reach.
    assert_eq!(
        apply(vec![enter(), Change::Remove { index: 2, length: 0 }], numbers(&[1, 2])).unwrap(),
        numbers(&[1, 2])
    );
    assert_eq!(
        apply(vec![enter(), Change::Truncate { length: 2 }], numbers(&[1, 2])).unwrap(),
        numbers(&[1, 2])
    );
    assert_eq!(
        apply(vec![enter(), Change::Insert { index: 2, value: number(3) }], numbers(&[1, 2]))
            .unwrap(),
        numbers(&[1, 2, 3])
    );
}

#[test]
fn changes_of_mappings_have_no_place_in_a_sequence() {
    let cases = vec![
        Change::ReplaceKey { index: 0, key: Value::Nil },
        Change::ReplaceMapping { index: 0, key: Value::Nil, value: Value::Nil },
        Change::InsertMapping { index: 0, key: Value::Nil, value: Value::Nil },
        Change::Replace { index: None, value: Value::Nil },
        Change::EnterSequence { index: Some(0), key: true },
        Change::EnterSequence { index: None, key: false },
    ];
    for change in cases {
        assert_eq!(
            mismatch(vec![enter(), change], Value::Sequence(vec![numbers(&[1])])),
            Mismatch::UnexpectedChange
        );
    }
    assert_eq!(
        mismatch(
            vec![enter_map(), Change::Insert { index: 0, value: Value::Nil }],
            Value::Mappings(vec![])
        ),
        Mismatch::UnexpectedChange
    );
}

#[test]
fn mapping_changes_edit_in_place() {
    let changes = vec![
        enter_map(),
        Change::ReplaceMapping { index: 0, key: number(10), value: number(11) },
        Change::Replace { index: Some(1), value: number(21) },
        Change::ReplaceKey { index: 2, key: number(30) },
        Change::InsertMapping { index: 3, key: number(40), value: number(41) },
        Change::Remove { index: 1, length: 1 },
    ];
    let entries = Value::Mappings(vec![
        (number(1), number(2)),
        (number(3), number(4)),
        (number(5), number(6)),
    ]);
    assert_eq!(
        apply(changes, entries).unwrap(),
        Value::Mappings(vec![
            (number(10), number(11)),
            (number(30), number(6)),
            (number(40), number(41)),
        ])
    );
}

#[test]
fn mapping_changes_check_their_bounds() {
    let cases = vec![
        Change::ReplaceMapping { index: 1, key: Value::Nil, value: Value::Nil },
        Change::Replace { index: Some(1), value: Value::Nil },
        Change::ReplaceKey { index: 1, key: Value::Nil },
        Change::Remove { index: 0, length: 2 },
        Change::Truncate { length: 2 },
        Change::InsertMapping { index: 2, key: Value::Nil, value: Value::Nil },
        Change::EnterSequence { index: Some(1), key: false },
        Change::EnterMap { index: Some(1), key: true },
    ];
    for change in cases {
        assert_eq!(
            mismatch(vec![enter_map(), change], Value::Mappings(vec![(number(1), number(2))])),
            Mismatch::IndexOutOfBounds
        );
    }
}

#[test]
fn nested_containers_are_entered_and_left() {
    let changes = vec![
        enter_map(),
        Change::EnterSequence { index: Some(0), key: true },
        Change::Insert { index: 0, value: number(9) },
        Change::Exit,
        Change::EnterMap { index: Some(0), key: false },
        Change::EnterSequence { index: Some(0), key: false },
        Change::Truncate { length: 0 },
        Change::Exit,
        Change::ReplaceKey { index: 0, key: Value::Unit },
        Change::Exit,
        Change::Truncate { length: 1 },
    ];
    let root = Value::Mappings(vec![
        (numbers(&[1]), Value::Mappings(vec![(number(5), numbers(&[6, 7]))])),
        (Value::Nil, Value::Nil),
    ]);
    assert_eq!(
        apply(changes, root).unwrap(),
        Value::Mappings(vec![(numbers(&[9, 1]), Value::Mappings(vec![(Value::Unit, numbers(&[]))]))])
    );
}

#[test]
fn the_half_that_is_entered_must_be_a_container() {
    let root = Value::Mappings(vec![(numbers(&[1]), Value::Mappings(vec![]))]);
    assert_eq!(
        mismatch(
            vec![enter_map(), Change::EnterSequence { index: Some(0), key: false }],
            root.clone()
        ),
        Mismatch::NotASequence
    );
    assert_eq!(
        mismatch(vec![enter_map(), Change::EnterMap { index: Some(0), key: true }], root),
        Mismatch::NotMappings
    );
}

#[test]
fn changes_after_the_root_is_left_are_refused() {
    assert_eq!(
        mismatch(vec![enter(), Change::Exit, Change::Exit], numbers(&[])),
        Mismatch::TrailingChanges
    );
    assert_eq!(
        mismatch(
            vec![enter_map(), Change::Exit, Change::Truncate { length: 0 }],
            Value::Mappings(vec![])
        ),
        Mismatch::TrailingChanges
    );
    assert_eq!(apply(vec![enter(), Change::Exit], numbers(&[1])).unwrap(), numbers(&[1]));
}

#[test]
fn applying_from_a_position_returns_where_it_ended() {
    let changes = vec![
        Change::Exit,
        Change::Truncate { length: 1 },
        Change::Exit,
        Change::Truncate { length: 0 },
    ];
    let mut values = vec![number(1), number(2)];
    assert!(matches!(apply_changes_to_sequence(&mut values, &changes, 1), Ok(3)));
    assert_eq!(values, vec![number(1)]);
    assert!(matches!(apply_changes_to_sequence(&mut values, &changes, 3), Ok(4)));
    assert_eq!(values, vec![]);
    assert!(matches!(apply_changes_to_sequence(&mut values, &changes, 4), Ok(4)));

    let mut entries = vec![(number(1), number(2))];
    assert!(matches!(apply_changes_to_mappings(&mut entries, &changes, 0), Ok(1)));
    assert_eq!(entries, vec![(number(1), number(2))]);
}
