use sad::input::{gather_patches, DiffLine};
use sad::udiff::DiffRange;
use sad::Fail;

fn range(bs: usize, bc: usize, as_: usize, ac: usize) -> DiffRange {
    DiffRange {
        before_start: bs,
        before_count: bc,
        after_start: as_,
        after_count: ac,
    }
}

#[test]
fn decodes_basic_record() {
    let rec = b"/tmp/a\n\n\n\n@@ -10,2 +10,3 @@".to_vec();
    let line = DiffLine::decode(&rec).unwrap();
    assert_eq!(line.0, b"/tmp/a".to_vec());
    assert_eq!(line.1, range(9, 2, 9, 3));
}

#[test]
fn conversion_to_zero_based_is_exact() {
    let rec = b"x\n\n\n\n@@ -1,0 +1,0 @@".to_vec();
    let line = DiffLine::decode(&rec).unwrap();
    assert_eq!(line.1, range(0, 0, 0, 0));
}

#[test]
fn decodes_leading_zeros() {
    let rec = b"x\n\n\n\n@@ -010,2 +003,4 @@".to_vec();
    let line = DiffLine::decode(&rec).unwrap();
    assert_eq!(line.1, range(9, 2, 2, 4));
}

#[test]
fn header_is_anchored_to_the_end() {
    let rec = b"a\n\n\n\n@@ -1,1 +1,1 @@x\n\n\n\n@@ -2,2 +3,4 @@".to_vec();
    let line = DiffLine::decode(&rec).unwrap();
    assert_eq!(line.0, b"a\n\n\n\n@@ -1,1 +1,1 @@x".to_vec());
    assert_eq!(line.1, range(1, 2, 2, 4));
}

#[test]
fn rejects_record_without_header() {
    let rec = b"/tmp/a".to_vec();
    match DiffLine::decode(&rec) {
        Err(Fail::ArgumentError(_)) => (),
        other => panic!("expected an argument failure, got {:?}", other),
    }
}

#[test]
fn rejects_non_numeric_capture() {
    let rec = b"/tmp/a\n\n\n\n@@ -x,2 +10,3 @@".to_vec();
    assert!(DiffLine::decode(&rec).is_err());
}

#[test]
fn rejects_missing_capture() {
    let rec = b"/tmp/a\n\n\n\n@@ -10 +10,3 @@".to_vec();
    assert!(DiffLine::decode(&rec).is_err());
}

#[test]
fn rejects_zero_wire_start() {
    let rec = b"/tmp/a\n\n\n\n@@ -0,2 +10,3 @@".to_vec();
    assert!(DiffLine::decode(&rec).is_err());
}

#[test]
fn rejects_oversized_number() {
    let rec = b"/tmp/a\n\n\n\n@@ -99999999999999999999999999,2 +10,3 @@".to_vec();
    assert!(DiffLine::decode(&rec).is_err());
}

#[test]
fn rejects_missing_sentinel() {
    let rec = b"/tmp/a\n\n\n@@ -10,2 +10,3 @@".to_vec();
    assert!(DiffLine::decode(&rec).is_err());
}

#[test]
fn gathers_ranges_by_path() {
    let recs = vec![
        b"/tmp/a\n\n\n\n@@ -10,2 +10,3 @@".to_vec(),
        b"/tmp/b\n\n\n\n@@ -1,1 +1,1 @@".to_vec(),
        b"/tmp/a\n\n\n\n@@ -20,2 +20,3 @@".to_vec(),
    ];
    let acc = gather_patches(&recs).unwrap();
    assert_eq!(acc.len(), 2);
    assert_eq!(acc[0].0, b"/tmp/a".to_vec());
    assert_eq!(acc[0].1, vec![range(9, 2, 9, 3), range(19, 2, 19, 3)]);
    assert_eq!(acc[1].0, b"/tmp/b".to_vec());
    assert_eq!(acc[1].1, vec![range(0, 1, 0, 1)]);
}

#[test]
fn equal_ranges_collapse_into_one() {
    let recs = vec![
        b"/tmp/a\n\n\n\n@@ -10,2 +10,3 @@".to_vec(),
        b"/tmp/a\n\n\n\n@@ -10,2 +10,3 @@".to_vec(),
    ];
    let acc = gather_patches(&recs).unwrap();
    assert_eq!(acc.len(), 1);
    assert_eq!(acc[0].1, vec![range(9, 2, 9, 3)]);
}

#[test]
fn one_bad_record_fails_the_whole_read() {
    let recs = vec![
        b"/tmp/a\n\n\n\n@@ -10,2 +10,3 @@".to_vec(),
        b"garbage".to_vec(),
    ];
    assert!(gather_patches(&recs).is_err());
}
