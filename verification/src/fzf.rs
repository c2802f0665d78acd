use crate::types::{copy_bytes, push_bytes, ErrKind, Fail};
use vstd::prelude::*;
use vstd::string::*;

verus! {

// ---------------------------------------------------------------------------
// Composing the interactive selector's invocation.
// ---------------------------------------------------------------------------

/// One subprocess invocation: program path, ordered arguments, and the
/// environment overrides merged onto the inherited environment. All byte
/// vectors, since paths need not be valid text.
pub struct SubprocessCommand {
    pub prog: Vec<u8>,
    pub args: Vec<Vec<u8>>,
    pub env: Vec<(Vec<u8>, Vec<u8>)>,
}

/// The mathematical shape of an environment override list.
pub open spec fn env_entries_view(s: Seq<(Vec<u8>, Vec<u8>)>) -> Seq<(Seq<u8>, Seq<u8>)> {
    s.map_values(|e: (Vec<u8>, Vec<u8>)| (e.0@, e.1@))
}

/// The fixed selector flags: binary-safe record framing in and out,
/// multi-select, color passthrough, a preview window, and the two callback
/// bindings that re-invoke this tool's own sub-commands.
pub open spec fn fzf_flags() -> Seq<Seq<u8>> {
    seq![
        ("--read0").spec_bytes(),
        ("--print0").spec_bytes(),
        ("-m").spec_bytes(),
        ("--ansi").spec_bytes(),
        ("--preview-window=70%:wrap").spec_bytes(),
        ("--bind=enter:abort+execute:--internal-patch\u{4}{+f}").spec_bytes(),
        ("--bind=double-click:abort+execute:--internal-patch\u{4}{+f}").spec_bytes(),
        ("--preview=--internal-preview\u{4}{f}").spec_bytes(),
    ]
}

/// The argument vector re-serialized with a control-byte separator.
pub open spec fn join_ctrl(parts: Seq<Seq<u8>>) -> Seq<u8>
    decreases parts.len(),
{
    if parts.len() == 0 {
        Seq::empty()
    } else if parts.len() == 1 {
        parts[0]
    } else {
        join_ctrl(parts.drop_last()) + seq![4u8] + parts.last()
    }
}

/// Pushing one byte vector extends the element-view sequence by its view.
proof fn lemma_deep_view_push(v: Vec<Vec<u8>>, pre: Vec<Vec<u8>>, x: Seq<u8>)
    requires
        v@.len() == pre@.len() + 1,
        v@ == pre@.push(v@.last()),
        v@.last()@ == x,
    ensures
        v.deep_view() =~= pre.deep_view().push(x),
{
    let dv = v.deep_view();
    let target = pre.deep_view().push(x);
    assert forall|t: int| 0 <= t < dv.len() implies dv[t] == target[t] by {
        assert(dv[t] == v@[t].deep_view());
        if t < pre@.len() {
            assert(v@[t] == pre@[t]);
            assert(pre.deep_view()[t] == pre@[t].deep_view());
        } else {
            assert(v@[t].deep_view() =~= v@[t]@);
        }
    }
}

/// Serialize the argument vector with the control byte between entries.
pub fn join_argv(argv: &Vec<Vec<u8>>) -> (out: Vec<u8>)
    ensures
        out@ == join_ctrl(argv.deep_view()),
{
    let mut out: Vec<u8> = Vec::new();
    let mut i: usize = 0;
    proof {
        assert(argv.deep_view().subrange(0, 0) =~= Seq::<Seq<u8>>::empty());
    }
    while i < argv.len()
        invariant
            i <= argv@.len(),
            argv.deep_view().len() == argv@.len(),
            out@ == join_ctrl(argv.deep_view().subrange(0, i as int)),
        decreases argv@.len() - i,
    {
        proof {
            assert(argv.deep_view().subrange(0, i + 1).drop_last() =~= argv.deep_view().subrange(
                0,
                i as int,
            ));
            assert(argv.deep_view()[i as int] =~= argv@[i as int]@);
        }
        if i > 0 {
            out.push(4);
        }
        push_bytes(&mut out, &argv[i]);
        i = i + 1;
    }
    proof {
        assert(argv.deep_view().subrange(0, argv@.len() as int) =~= argv.deep_view());
    }
    out
}

/// Compose the selector invocation: the fixed flags, then the caller's extra
/// arguments; the environment carries the re-serialized argument vector, the
/// resolved shell-out target, and a forced byte-oriented locale.
pub fn fzf_command(
    bin: Vec<u8>,
    extra: Vec<Vec<u8>>,
    argv: &Vec<Vec<u8>>,
    shell: Vec<u8>,
) -> (cmd: SubprocessCommand)
    ensures
        cmd.prog@ == bin@,
        cmd.args.deep_view() == fzf_flags() + extra.deep_view(),
        env_entries_view(cmd.env@) == seq![
            (("SAD_ARGV").spec_bytes(), join_ctrl(argv.deep_view())),
            (("SHELL").spec_bytes(), shell@),
            (("LC_ALL").spec_bytes(), ("C").spec_bytes()),
        ],
{
    let mut args: Vec<Vec<u8>> = Vec::new();
    args.push(("--read0").as_bytes_vec());
    args.push(("--print0").as_bytes_vec());
    args.push(("-m").as_bytes_vec());
    args.push(("--ansi").as_bytes_vec());
    args.push(("--preview-window=70%:wrap").as_bytes_vec());
    args.push(("--bind=enter:abort+execute:--internal-patch\u{4}{+f}").as_bytes_vec());
    args.push(("--bind=double-click:abort+execute:--internal-patch\u{4}{+f}").as_bytes_vec());
    args.push(("--preview=--internal-preview\u{4}{f}").as_bytes_vec());
    let ghost flags_only = args;
    proof {
        assert(flags_only@[0]@ == ("--read0").spec_bytes());
        assert(flags_only@[1]@ == ("--print0").spec_bytes());
        assert(flags_only@[2]@ == ("-m").spec_bytes());
        assert(flags_only@[3]@ == ("--ansi").spec_bytes());
        assert(flags_only@[4]@ == ("--preview-window=70%:wrap").spec_bytes());
        assert(flags_only@[5]@ == ("--bind=enter:abort+execute:--internal-patch\u{4}{+f}").spec_bytes());
        assert(flags_only@[6]@ == (
        "--bind=double-click:abort+execute:--internal-patch\u{4}{+f}").spec_bytes());
        assert(flags_only@[7]@ == ("--preview=--internal-preview\u{4}{f}").spec_bytes());
        assert forall|t: int| 0 <= t < 8 implies #[trigger] flags_only.deep_view()[t]
            == fzf_flags()[t] by {
            assert(flags_only.deep_view()[t] == flags_only@[t].deep_view());
            assert(flags_only@[t].deep_view() =~= flags_only@[t]@);
        }
        assert(flags_only.deep_view() =~= fzf_flags());
    }
    let mut extra = extra;
    let ghost extra_snap = extra;
    let ghost mut k: int = 0;
    while extra.len() > 0
        invariant
            0 <= k <= extra_snap@.len(),
            args.deep_view() =~= flags_only.deep_view() + extra_snap.deep_view().subrange(0, k),
            k + extra@.len() == extra_snap@.len(),
            extra@ =~= extra_snap@.subrange(k, extra_snap@.len() as int),
        decreases extra@.len(),
    {
        let ghost pre = args;
        let head = extra.remove(0);
        proof {
            assert(head@ =~= extra_snap@[k]@);
            assert(extra_snap.deep_view()[k] =~= extra_snap@[k]@);
        }
        args.push(head);
        proof {
            lemma_deep_view_push(args, pre, extra_snap.deep_view()[k]);
            assert(flags_only.deep_view() + extra_snap.deep_view().subrange(0, k + 1) =~= (
            flags_only.deep_view() + extra_snap.deep_view().subrange(0, k)).push(
                extra_snap.deep_view()[k],
            ));
            k = k + 1;
            assert(extra@ =~= extra_snap@.subrange(k, extra_snap@.len() as int));
        }
    }
    proof {
        assert(extra_snap.deep_view().subrange(0, k) =~= extra_snap.deep_view());
    }
    let joined = join_argv(argv);
    let mut env: Vec<(Vec<u8>, Vec<u8>)> = Vec::new();
    env.push((("SAD_ARGV").as_bytes_vec(), joined));
    env.push((("SHELL").as_bytes_vec(), shell));
    env.push((("LC_ALL").as_bytes_vec(), ("C").as_bytes_vec()));
    proof {
        assert(env_entries_view(env@) =~= seq![
            (("SAD_ARGV").spec_bytes(), join_ctrl(argv.deep_view())),
            (("SHELL").spec_bytes(), shell@),
            (("LC_ALL").spec_bytes(), ("C").spec_bytes()),
        ]);
    }
    SubprocessCommand { prog: bin, args, env }
}

// ---------------------------------------------------------------------------
// Supervising the selector child.
// ---------------------------------------------------------------------------

/// What the supervisor observed of the child: the abort signal fired first
/// and the kill succeeded or failed, or the child exited on its own (with or
/// without a reportable code), or waiting on it failed outright.
#[derive(Clone, Copy, Debug, PartialEq, Eq, Structural)]
pub enum ChildEvent {
    AbortKilled,
    AbortKillFailed(ErrKind),
    Exited(Option<i32>),
    WaitFailed(ErrKind),
}

/// The supervisor's decision: what (if anything) to publish on the abort bus,
/// and whether to attempt terminal-state recovery afterward.
pub struct Supervision {
    pub report: Option<Fail>,
    pub try_reset: bool,
}

/// Decide what one child observation means. Exit codes 0 and 1 and an
/// unreportable termination are normal completions; 130 is a user interrupt;
/// any other code is a bad exit naming the program and the code, followed by
/// terminal recovery, which is also attempted after a successful kill.
pub fn supervise_child(prog: &Vec<u8>, event: &ChildEvent) -> (s: Supervision)
    ensures
        match *event {
            ChildEvent::AbortKilled => s.report is None && s.try_reset,
            ChildEvent::AbortKillFailed(k) => s.report matches Some(Fail::IO(p, kk)) && p@ == prog@
                && kk == k && !s.try_reset,
            ChildEvent::Exited(code) => if code is None || code == Some(0i32) || code == Some(1i32) {
                s.report is None && !s.try_reset
            } else if code == Some(130i32) {
                s.report == Some(Fail::Interrupt) && !s.try_reset
            } else {
                s.report matches Some(Fail::BadExit(p, c)) && p@ == prog@ && Some(c) == code
                    && s.try_reset
            },
            ChildEvent::WaitFailed(k) => s.report matches Some(Fail::IO(p, kk)) && p@ == prog@
                && kk == k && !s.try_reset,
        },
{
    match event {
        ChildEvent::AbortKilled => Supervision { report: None, try_reset: true },
        ChildEvent::AbortKillFailed(k) => Supervision {
            report: Some(Fail::IO(copy_bytes(prog), *k)),
            try_reset: false,
        },
        ChildEvent::Exited(code) => match code {
            Option::None => Supervision { report: None, try_reset: false },
            Option::Some(c) => {
                if *c == 0 || *c == 1 {
                    Supervision { report: None, try_reset: false }
                } else if *c == 130 {
                    Supervision { report: Some(Fail::Interrupt), try_reset: false }
                } else {
                    Supervision {
                        report: Some(Fail::BadExit(copy_bytes(prog), *c)),
                        try_reset: true,
                    }
                }
            },
        },
        ChildEvent::WaitFailed(k) => Supervision {
            report: Some(Fail::IO(copy_bytes(prog), *k)),
            try_reset: false,
        },
    }
}

// ---------------------------------------------------------------------------
// Best-effort terminal recovery after a kill or a bad exit.
// ---------------------------------------------------------------------------

/// One recovery invocation: a program and its arguments.
pub struct ResetCmd {
    pub prog: Vec<u8>,
    pub args: Vec<Vec<u8>>,
}

/// What running one recovery candidate produced: the spawn itself failed, or
/// the process exited (successfully or not).
#[derive(Clone, Copy, Debug, PartialEq, Eq, Structural)]
pub enum RunOutcome {
    SpawnFailed(ErrKind),
    Exited(bool),
}

/// Relies on which::which: locates a program on the runtime search path; the
/// answer depends on the machine, so nothing is promised of it.
#[verifier::external_body]
fn which_binary(name: &str) -> Option<Vec<u8>> {
    match which::which(name) {
        Ok(path) => Some(path.to_string_lossy().into_owned().into_bytes()),
        Err(_) => None,
    }
}

/// The ordered recovery candidates for the two lookups: the screen-reset
/// utility invoked with its one fixed argument where found, then the more
/// basic utility invoked bare where found.
pub fn reset_candidates(tput: Option<Vec<u8>>, reset: Option<Vec<u8>>) -> (cmds: Vec<ResetCmd>)
    ensures
        cmds@.len() == (if tput is Some {
            1int
        } else {
            0int
        }) + (if reset is Some {
            1int
        } else {
            0int
        }),
        tput matches Some(p) ==> cmds@[0].prog@ == p@ && cmds@[0].args.deep_view() =~= seq![
            ("reset").spec_bytes(),
        ],
        reset matches Some(p) ==> {
            let last = cmds@[cmds@.len() - 1];
            last.prog@ == p@ && last.args.deep_view() =~= Seq::<Seq<u8>>::empty()
        },
{
    let mut cmds: Vec<ResetCmd> = Vec::new();
    if let Some(p) = tput {
        let mut args: Vec<Vec<u8>> = Vec::new();
        args.push(("reset").as_bytes_vec());
        proof {
            assert(args@[0].deep_view() =~= args@[0]@);
            assert(args.deep_view() =~= seq![("reset").spec_bytes()]);
        }
        cmds.push(ResetCmd { prog: p, args });
    }
    if let Some(p) = reset {
        let args: Vec<Vec<u8>> = Vec::new();
        proof {
            assert(args.deep_view() =~= Seq::<Seq<u8>>::empty());
        }
        cmds.push(ResetCmd { prog: p, args });
    }
    cmds
}

/// Locate the recovery utilities on the search path and order the attempts.
/// Whatever the lookups return, at most two candidates come back: any first
/// one found by the primary lookup runs with the single fixed argument, any
/// found by the fallback lookup runs bare, in that order.
pub fn plan_terminal_reset() -> (cmds: Vec<ResetCmd>)
    ensures
        cmds@.len() <= 2,
        forall|i: int|
            0 <= i < cmds@.len() ==> ((#[trigger] cmds@[i]).args.deep_view() =~= seq![
                ("reset").spec_bytes(),
            ] || cmds@[i].args.deep_view() =~= Seq::<Seq<u8>>::empty()),
        cmds@.len() == 2 ==> cmds@[0].args.deep_view() =~= seq![("reset").spec_bytes()]
            && cmds@[1].args.deep_view() =~= Seq::<Seq<u8>>::empty(),
{
    let tput = which_binary("tput");
    let reset = which_binary("reset");
    reset_candidates(tput, reset)
}

/// Resolve the shell-out target for the child's environment: the caller's
/// own resolved executable path where it could be read, else this tool
/// located on the search path, else the bare program name — so the child's
/// execute action calls back into this tool, never an arbitrary shell.
pub fn resolve_shell(current_exe: Option<Vec<u8>>) -> (s: Vec<u8>)
    ensures
        current_exe matches Some(p) ==> s@ == p@,
{
    match current_exe {
        Option::Some(p) => p,
        Option::None => match which_binary("sad") {
            Option::Some(p) => p,
            Option::None => ("sad").as_bytes_vec(),
        },
    }
}

/// The view of a list of attempted recovery runs.
pub open spec fn attempts_view(s: Seq<(Vec<u8>, RunOutcome)>) -> Seq<(Seq<u8>, RunOutcome)> {
    s.map_values(|e: (Vec<u8>, RunOutcome)| (e.0@, e.1))
}

/// Index of the first attempt that settles recovery — a spawn failure or a
/// successful exit — or -1 when every attempt exited unsuccessfully.
pub open spec fn first_decisive(atts: Seq<(Seq<u8>, RunOutcome)>) -> int
    decreases atts.len(),
{
    if atts.len() == 0 {
        -1
    } else if !(atts[0].1 == RunOutcome::Exited(false)) {
        0
    } else {
        let r = first_decisive(atts.skip(1));
        if r == -1 {
            -1
        } else {
            r + 1
        }
    }
}

/// The first decisive attempt, where there is one, is a real index.
proof fn lemma_first_decisive_bounds(atts: Seq<(Seq<u8>, RunOutcome)>)
    ensures
        -1 <= first_decisive(atts) < atts.len(),
    decreases atts.len(),
{
    if atts.len() > 0 {
        lemma_first_decisive_bounds(atts.skip(1));
    }
}

/// A prefix of unsuccessful exits just shifts the first decisive attempt.
proof fn lemma_first_decisive_prefix(atts: Seq<(Seq<u8>, RunOutcome)>, i: int)
    requires
        0 <= i <= atts.len(),
        forall|t: int| 0 <= t < i ==> (#[trigger] atts[t]).1 == RunOutcome::Exited(false),
    ensures
        first_decisive(atts) == if first_decisive(atts.skip(i)) == -1 {
            -1
        } else {
            first_decisive(atts.skip(i)) + i
        },
    decreases i,
{
    if i > 0 {
        lemma_first_decisive_bounds(atts.skip(i));
        assert(atts[0].1 == RunOutcome::Exited(false));
        assert(first_decisive(atts) == if first_decisive(atts.skip(1)) == -1 {
            -1int
        } else {
            first_decisive(atts.skip(1)) + 1
        });
        assert(atts.skip(1).skip(i - 1) =~= atts.skip(i));
        assert forall|t: int| 0 <= t < i - 1 implies (#[trigger] atts.skip(1)[t]).1
            == RunOutcome::Exited(false) by {
            assert(atts.skip(1)[t] == atts[t + 1]);
        }
        lemma_first_decisive_prefix(atts.skip(1), i - 1);
    } else {
        assert(atts.skip(0) =~= atts);
    }
}

/// Fold the observed recovery attempts into one result: the first
/// spawn failure is an I/O failure naming that program; the first successful
/// exit is a recovery; if every located utility ran and failed — or none was
/// located at all — the result is a not-found I/O failure for the synthetic
/// "reset" target.
pub fn reset_outcome(attempts: &Vec<(Vec<u8>, RunOutcome)>) -> (r: Result<(), Fail>)
    ensures
        ({
            let atts = attempts_view(attempts@);
            let d = first_decisive(atts);
            if d == -1 {
                r matches Err(Fail::IO(p, k)) && p@ == ("reset").spec_bytes() && k
                    == ErrKind::NotFound
            } else {
                match atts[d].1 {
                    RunOutcome::SpawnFailed(k) => r matches Err(Fail::IO(p, kk)) && p@ == atts[d].0
                        && kk == k,
                    RunOutcome::Exited(_) => r is Ok,
                }
            }
        }),
{
    let ghost atts = attempts_view(attempts@);
    let mut i: usize = 0;
    while i < attempts.len()
        invariant
            i <= attempts@.len(),
            atts == attempts_view(attempts@),
            atts.len() == attempts@.len(),
            forall|t: int| 0 <= t < i ==> (#[trigger] atts[t]).1 == RunOutcome::Exited(false),
        decreases attempts@.len() - i,
    {
        proof {
            assert(atts[i as int] == (attempts@[i as int].0@, attempts@[i as int].1));
        }
        match &attempts[i].1 {
            RunOutcome::SpawnFailed(k) => {
                proof {
                    lemma_first_decisive_prefix(atts, i as int);
                    assert(atts.skip(i as int)[0] == atts[i as int]);
                }
                return Err(Fail::IO(copy_bytes(&attempts[i].0), *k));
            },
            RunOutcome::Exited(ok) => {
                if *ok {
                    proof {
                        lemma_first_decisive_prefix(atts, i as int);
                        assert(atts.skip(i as int)[0] == atts[i as int]);
                    }
                    return Ok(());
                }
            },
        }
        i = i + 1;
    }
    proof {
        lemma_first_decisive_prefix(atts, attempts@.len() as int);
        assert(atts.skip(attempts@.len() as int) =~= Seq::<(Seq<u8>, RunOutcome)>::empty());
    }
    Err(Fail::IO(("reset").as_bytes_vec(), ErrKind::NotFound))
}

} // verus!
