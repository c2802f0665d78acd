use sad::input::{dedup_paths, stdin_plan, Payload, SeenPaths};
use sad::{Abort, ErrKind, Fail};

#[test]
fn duplicate_canonical_paths_are_emitted_once() {
    let inputs = vec![b"/tmp/a".to_vec(), b"/tmp/a".to_vec(), b"/tmp/b".to_vec()];
    let out = dedup_paths(&inputs);
    assert_eq!(out, vec![b"/tmp/a".to_vec(), b"/tmp/b".to_vec()]);
}

#[test]
fn emission_keeps_read_order() {
    let inputs = vec![
        b"/tmp/b".to_vec(),
        b"/tmp/a".to_vec(),
        b"/tmp/b".to_vec(),
        b"/tmp/c".to_vec(),
        b"/tmp/a".to_vec(),
    ];
    let out = dedup_paths(&inputs);
    assert_eq!(
        out,
        vec![b"/tmp/b".to_vec(), b"/tmp/a".to_vec(), b"/tmp/c".to_vec()]
    );
}

#[test]
fn seen_paths_reports_freshness() {
    let mut seen = SeenPaths::new();
    assert!(seen.insert(&b"/tmp/a".to_vec()));
    assert!(!seen.insert(&b"/tmp/a".to_vec()));
    assert!(seen.insert(&b"/tmp/b".to_vec()));
    assert!(!seen.insert(&b"/tmp/b".to_vec()));
}

#[test]
fn failed_canonicalization_drops_the_record_silently() {
    let mut seen = SeenPaths::new();
    assert!(seen.accept_record(None).is_none());
    match seen.accept_record(Some(b"/tmp/a".to_vec())) {
        Some(Payload::Entire(p)) => assert_eq!(p, b"/tmp/a".to_vec()),
        other => panic!("expected a whole-file target, got {:?}", other),
    }
    assert!(seen.accept_record(Some(b"/tmp/a".to_vec())).is_none());
    assert!(seen.accept_record(None).is_none());
    match seen.accept_record(Some(b"/tmp/b".to_vec())) {
        Some(Payload::Entire(p)) => assert_eq!(p, b"/tmp/b".to_vec()),
        other => panic!("expected a whole-file target, got {:?}", other),
    }
}

#[test]
fn whole_targets_carry_their_path() {
    let p = Payload::Entire(b"/tmp/a".to_vec());
    match p {
        Payload::Entire(path) => assert_eq!(path, b"/tmp/a".to_vec()),
        Payload::Piecewise(..) => panic!("expected a whole-file target"),
    }
}

#[test]
fn stdin_plan_picks_the_configured_delimiter() {
    match stdin_plan(true) {
        Ok(d) => assert_eq!(d, 0),
        Err(f) => assert_eq!(f, Fail::ArgumentError(b"Nil stdin".to_vec())),
    }
    match stdin_plan(false) {
        Ok(d) => assert_eq!(d, 10),
        Err(f) => assert_eq!(f, Fail::ArgumentError(b"Nil stdin".to_vec())),
    }
}

#[test]
fn abort_keeps_the_first_failure() {
    let mut abort = Abort::new();
    assert_eq!(*abort.observed(), None);
    abort.send(Fail::Interrupt);
    assert_eq!(*abort.observed(), Some(Fail::Interrupt));
    abort.send(Fail::IO(b"/tmp/a".to_vec(), ErrKind::Other));
    assert_eq!(*abort.observed(), Some(Fail::Interrupt));
}
