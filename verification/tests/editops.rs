use objdiff::diff::editops::{decode_script, encode_script, group_runs, EditKind, EditRun};

fn run(kind: EditKind, len: usize) -> EditRun {
    EditRun { kind, len }
}

#[test]
fn steps_are_grouped_into_runs() {
    let ops = vec![
        EditKind::Match,
        EditKind::Match,
        EditKind::Delete,
        EditKind::Insert,
        EditKind::Insert,
        EditKind::Insert,
        EditKind::Match,
    ];
    assert_eq!(
        group_runs(&ops),
        vec![
            run(EditKind::Match, 2),
            run(EditKind::Delete, 1),
            run(EditKind::Insert, 3),
            run(EditKind::Match, 1),
        ]
    );
}

#[test]
fn no_steps_give_no_runs() {
    assert_eq!(group_runs(&Vec::new()), Vec::new());
}

#[test]
fn kinds_say_which_side_they_consume() {
    assert!(EditKind::Match.consumes_left() && EditKind::Match.consumes_right());
    assert!(EditKind::Replace.consumes_left() && EditKind::Replace.consumes_right());
    assert!(EditKind::Delete.consumes_left() && !EditKind::Delete.consumes_right());
    assert!(!EditKind::Insert.consumes_left() && EditKind::Insert.consumes_right());
}

#[test]
fn a_run_is_encoded_in_nine_bytes() {
    let bytes = encode_script(&vec![run(EditKind::Delete, 0x0102)]);
    assert_eq!(bytes, vec![2, 0x02, 0x01, 0, 0, 0, 0, 0, 0]);
    let bytes = encode_script(&vec![run(EditKind::Match, 1), run(EditKind::Insert, 5)]);
    assert_eq!(bytes, vec![0, 1, 0, 0, 0, 0, 0, 0, 0, 1, 5, 0, 0, 0, 0, 0, 0, 0]);
    let bytes = encode_script(&vec![run(EditKind::Replace, 0)]);
    assert_eq!(bytes, vec![3, 0, 0, 0, 0, 0, 0, 0, 0]);
}

#[test]
fn encoded_script_round_trips() {
    let runs = vec![
        run(EditKind::Match, 7),
        run(EditKind::Replace, 300),
        run(EditKind::Insert, 1),
        run(EditKind::Delete, usize::MAX),
    ];
    let bytes = encode_script(&runs);
    assert_eq!(bytes.len(), 36);
    assert_eq!(decode_script(&bytes), Some(runs));
}

#[test]
fn empty_script_round_trips() {
    let bytes = encode_script(&Vec::new());
    assert!(bytes.is_empty());
    assert_eq!(decode_script(&bytes), Some(Vec::new()));
}

#[test]
fn truncated_script_is_rejected() {
    let bytes = encode_script(&vec![run(EditKind::Match, 7)]);
    assert_eq!(decode_script(&bytes[..8]), None);
    assert_eq!(decode_script(&bytes[..1]), None);
}

#[test]
fn unknown_kind_is_rejected() {
    let mut bytes = encode_script(&vec![run(EditKind::Match, 7), run(EditKind::Insert, 2)]);
    bytes[9] = 4;
    assert_eq!(decode_script(&bytes), None);
}
