use sad::fzf::{
    fzf_command, join_argv, plan_terminal_reset, reset_candidates, reset_outcome, supervise_child,
    ChildEvent, RunOutcome,
};
use sad::output::{choose_sink, Action, Printer, SinkChoice};
use sad::{ErrKind, Fail};

#[test]
fn exit_code_one_is_no_failure() {
    let prog = b"fzf".to_vec();
    let s = supervise_child(&prog, &ChildEvent::Exited(Some(1)));
    assert_eq!(s.report, None);
    assert!(!s.try_reset);
}

#[test]
fn exit_code_zero_and_no_code_are_no_failure() {
    let prog = b"fzf".to_vec();
    let s = supervise_child(&prog, &ChildEvent::Exited(Some(0)));
    assert_eq!(s.report, None);
    assert!(!s.try_reset);
    let s = supervise_child(&prog, &ChildEvent::Exited(None));
    assert_eq!(s.report, None);
    assert!(!s.try_reset);
}

#[test]
fn exit_code_130_is_a_user_interrupt() {
    let prog = b"fzf".to_vec();
    let s = supervise_child(&prog, &ChildEvent::Exited(Some(130)));
    assert_eq!(s.report, Some(Fail::Interrupt));
    assert!(!s.try_reset);
}

#[test]
fn exit_code_42_is_a_bad_exit_with_recovery() {
    let prog = b"fzf".to_vec();
    let s = supervise_child(&prog, &ChildEvent::Exited(Some(42)));
    assert_eq!(s.report, Some(Fail::BadExit(b"fzf".to_vec(), 42)));
    assert!(s.try_reset);
}

#[test]
fn killed_child_triggers_recovery_without_failure() {
    let prog = b"fzf".to_vec();
    let s = supervise_child(&prog, &ChildEvent::AbortKilled);
    assert_eq!(s.report, None);
    assert!(s.try_reset);
}

#[test]
fn failed_kill_is_an_io_failure() {
    let prog = b"fzf".to_vec();
    let s = supervise_child(&prog, &ChildEvent::AbortKillFailed(ErrKind::Other));
    assert_eq!(s.report, Some(Fail::IO(b"fzf".to_vec(), ErrKind::Other)));
    assert!(!s.try_reset);
}

#[test]
fn selector_invocation_is_fixed_flags_then_extras() {
    let argv = vec![b"sad".to_vec(), b"-p".to_vec()];
    let cmd = fzf_command(
        b"/usr/bin/fzf".to_vec(),
        vec![b"--height=40%".to_vec()],
        &argv,
        b"/usr/bin/sad".to_vec(),
    );
    assert_eq!(cmd.prog, b"/usr/bin/fzf".to_vec());
    assert_eq!(cmd.args.len(), 9);
    assert_eq!(cmd.args[0], b"--read0".to_vec());
    assert_eq!(cmd.args[1], b"--print0".to_vec());
    assert_eq!(cmd.args[2], b"-m".to_vec());
    assert_eq!(cmd.args[3], b"--ansi".to_vec());
    assert_eq!(cmd.args[4], b"--preview-window=70%:wrap".to_vec());
    assert_eq!(
        cmd.args[5],
        b"--bind=enter:abort+execute:--internal-patch\x04{+f}".to_vec()
    );
    assert_eq!(
        cmd.args[6],
        b"--bind=double-click:abort+execute:--internal-patch\x04{+f}".to_vec()
    );
    assert_eq!(
        cmd.args[7],
        b"--preview=--internal-preview\x04{f}".to_vec()
    );
    assert_eq!(cmd.args[8], b"--height=40%".to_vec());
    assert_eq!(cmd.env.len(), 3);
    assert_eq!(cmd.env[0].0, b"SAD_ARGV".to_vec());
    assert_eq!(cmd.env[0].1, b"sad\x04-p".to_vec());
    assert_eq!(cmd.env[1].0, b"SHELL".to_vec());
    assert_eq!(cmd.env[1].1, b"/usr/bin/sad".to_vec());
    assert_eq!(cmd.env[2].0, b"LC_ALL".to_vec());
    assert_eq!(cmd.env[2].1, b"C".to_vec());
}

#[test]
fn argv_serialization_uses_the_control_byte() {
    assert_eq!(join_argv(&vec![]), b"".to_vec());
    assert_eq!(join_argv(&vec![b"one".to_vec()]), b"one".to_vec());
    assert_eq!(
        join_argv(&vec![b"one".to_vec(), b"two".to_vec(), b"".to_vec()]),
        b"one\x04two\x04".to_vec()
    );
}

#[test]
fn action_axis_forces_the_selector() {
    let choice = choose_sink(
        Action::Fzf(b"fzf".to_vec(), vec![b"-e".to_vec()]),
        Printer::Stdout,
    );
    match choice {
        SinkChoice::Fzf(bin, args) => {
            assert_eq!(bin, b"fzf".to_vec());
            assert_eq!(args, vec![b"-e".to_vec()]);
        }
        _ => panic!("expected the selector sink"),
    }
}

#[test]
fn printer_axis_chooses_pager_or_direct() {
    let pager = sad::fzf::SubprocessCommand {
        prog: b"less".to_vec(),
        args: vec![b"-R".to_vec()],
        env: vec![],
    };
    match choose_sink(Action::Preview, Printer::Pager(pager)) {
        SinkChoice::Pager(cmd) => assert_eq!(cmd.prog, b"less".to_vec()),
        _ => panic!("expected the pager sink"),
    }
    match choose_sink(Action::Commit, Printer::Stdout) {
        SinkChoice::Direct => (),
        _ => panic!("expected direct output"),
    }
}

#[test]
fn recovery_candidates_keep_lookup_order() {
    let cmds = reset_candidates(Some(b"/usr/bin/tput".to_vec()), Some(b"/usr/bin/reset".to_vec()));
    assert_eq!(cmds.len(), 2);
    assert_eq!(cmds[0].prog, b"/usr/bin/tput".to_vec());
    assert_eq!(cmds[0].args, vec![b"reset".to_vec()]);
    assert_eq!(cmds[1].prog, b"/usr/bin/reset".to_vec());
    assert!(cmds[1].args.is_empty());

    let cmds = reset_candidates(None, Some(b"/usr/bin/reset".to_vec()));
    assert_eq!(cmds.len(), 1);
    assert!(cmds[0].args.is_empty());

    let cmds = reset_candidates(None, None);
    assert!(cmds.is_empty());
}

#[test]
fn located_recovery_plan_is_well_formed() {
    let cmds = plan_terminal_reset();
    assert!(cmds.len() <= 2);
    for cmd in &cmds {
        assert!(cmd.args.is_empty() || cmd.args == vec![b"reset".to_vec()]);
    }
}

#[test]
fn recovery_result_follows_the_first_decisive_attempt() {
    let empty: Vec<(Vec<u8>, RunOutcome)> = vec![];
    assert_eq!(
        reset_outcome(&empty),
        Err(Fail::IO(b"reset".to_vec(), ErrKind::NotFound))
    );

    let attempts = vec![
        (b"/usr/bin/tput".to_vec(), RunOutcome::Exited(false)),
        (b"/usr/bin/reset".to_vec(), RunOutcome::Exited(true)),
    ];
    assert_eq!(reset_outcome(&attempts), Ok(()));

    let attempts = vec![(
        b"/usr/bin/tput".to_vec(),
        RunOutcome::SpawnFailed(ErrKind::PermissionDenied),
    )];
    assert_eq!(
        reset_outcome(&attempts),
        Err(Fail::IO(b"/usr/bin/tput".to_vec(), ErrKind::PermissionDenied))
    );

    let attempts = vec![(b"/usr/bin/tput".to_vec(), RunOutcome::Exited(false))];
    assert_eq!(
        reset_outcome(&attempts),
        Err(Fail::IO(b"reset".to_vec(), ErrKind::NotFound))
    );
}
