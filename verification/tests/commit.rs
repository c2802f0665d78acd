use sad::fs_pipe::{finish_slurp, temp_sibling, DirModel, FileMeta, ReadOutcome};
use sad::{ErrKind, Fail};

#[test]
fn non_regular_files_read_as_empty_content() {
    let meta = FileMeta {
        is_regular: false,
        mode: 0o755,
    };
    let s = finish_slurp(
        &b"/tmp/dir".to_vec(),
        meta,
        ReadOutcome::Content(b"ignored".to_vec()),
    )
    .unwrap();
    assert!(s.content.is_empty());
    assert_eq!(s.meta, meta);
}

#[test]
fn invalid_text_reads_as_empty_content() {
    let meta = FileMeta {
        is_regular: true,
        mode: 0o644,
    };
    let s = finish_slurp(&b"/tmp/bin".to_vec(), meta, ReadOutcome::InvalidText).unwrap();
    assert!(s.content.is_empty());
}

#[test]
fn genuine_read_failure_is_fatal() {
    let meta = FileMeta {
        is_regular: true,
        mode: 0o644,
    };
    let r = finish_slurp(
        &b"/tmp/secret".to_vec(),
        meta,
        ReadOutcome::Failed(ErrKind::PermissionDenied),
    );
    assert_eq!(
        r.err(),
        Some(Fail::IO(b"/tmp/secret".to_vec(), ErrKind::PermissionDenied))
    );
}

#[test]
fn regular_files_keep_their_content() {
    let meta = FileMeta {
        is_regular: true,
        mode: 0o644,
    };
    let s = finish_slurp(
        &b"/tmp/file".to_vec(),
        meta,
        ReadOutcome::Content(b"hello".to_vec()),
    )
    .unwrap();
    assert_eq!(s.content, b"hello".to_vec());
}

#[test]
fn temp_sibling_is_target_separator_token() {
    let target = b"/tmp/a".to_vec();
    let tmp = temp_sibling(&target);
    assert_eq!(tmp.len(), target.len() + 35);
    assert_eq!(&tmp[..target.len()], &target[..]);
    assert_eq!(&tmp[target.len()..target.len() + 3], b"___");
    for &b in &tmp[target.len() + 3..] {
        assert!(b.is_ascii_hexdigit() && !b.is_ascii_uppercase());
    }
    assert_ne!(tmp, target);
}

#[test]
fn temp_sibling_tokens_are_fresh() {
    let target = b"/tmp/a".to_vec();
    assert_ne!(temp_sibling(&target), temp_sibling(&target));
}

#[test]
fn crash_before_rename_leaves_the_original_untouched() {
    let target = b"/tmp/a".to_vec();
    let mut dir = DirModel::new();
    assert!(dir.create_exclusive(&target, 0o640));
    assert!(dir.write(&target, &b"old content".to_vec()));

    let tmp = temp_sibling(&target);
    let (orig_mode, _) = dir.lookup(&target).unwrap();
    assert!(dir.create_exclusive(&tmp, 0o600));
    assert!(dir.set_mode(&tmp, orig_mode));
    assert!(dir.write(&tmp, &b"new content".to_vec()));

    // A crash here would leave exactly this state behind.
    let (mode, content) = dir.lookup(&target).unwrap();
    assert_eq!(mode, 0o640);
    assert_eq!(content, b"old content".to_vec());
}

#[test]
fn crash_after_rename_leaves_new_content_and_old_mode() {
    let target = b"/tmp/a".to_vec();
    let mut dir = DirModel::new();
    assert!(dir.create_exclusive(&target, 0o640));
    assert!(dir.write(&target, &b"old content".to_vec()));

    let tmp = temp_sibling(&target);
    let (orig_mode, _) = dir.lookup(&target).unwrap();
    assert!(dir.create_exclusive(&tmp, 0o600));
    assert!(dir.set_mode(&tmp, orig_mode));
    assert!(dir.write(&tmp, &b"new content".to_vec()));
    assert!(dir.rename(&tmp, &target));

    let (mode, content) = dir.lookup(&target).unwrap();
    assert_eq!(mode, 0o640);
    assert_eq!(content, b"new content".to_vec());
    assert!(dir.lookup(&tmp).is_none());
}

#[test]
fn exclusive_creation_refuses_a_collision() {
    let path = b"/tmp/a___0123456789abcdef0123456789abcdef".to_vec();
    let mut dir = DirModel::new();
    assert!(dir.create_exclusive(&path, 0o600));
    assert!(!dir.create_exclusive(&path, 0o600));
}
