use crate::fzf::SubprocessCommand;
use vstd::prelude::*;

verus! {

/// The action axis of the configuration: preview the changes, commit them,
/// or hand them to the interactive selector with its program and extra
/// arguments.
pub enum Action {
    Preview,
    Commit,
    Fzf(Vec<u8>, Vec<Vec<u8>>),
}

/// The printer axis: a generic pager subprocess, or direct standard output.
pub enum Printer {
    Pager(SubprocessCommand),
    Stdout,
}

/// Exactly one destination for the rendered result stream.
pub enum SinkChoice {
    Fzf(Vec<u8>, Vec<Vec<u8>>),
    Pager(SubprocessCommand),
    Direct,
}

/// Route the rendered stream once per run: the interactive selector whenever
/// the action asks for it, regardless of the printer; otherwise the pager
/// when one is configured; otherwise direct output.
pub fn choose_sink(action: Action, printer: Printer) -> (choice: SinkChoice)
    ensures
        match action {
            Action::Fzf(bin, args) => choice matches SinkChoice::Fzf(b, a) && b@ == bin@
                && a.deep_view() == args.deep_view(),
            _ => match printer {
                Printer::Pager(cmd) => choice matches SinkChoice::Pager(c) && c.prog@ == cmd.prog@
                    && c.args.deep_view() == cmd.args.deep_view() && c.env@ == cmd.env@,
                Printer::Stdout => choice is Direct,
            },
        },
{
    match action {
        Action::Fzf(bin, args) => SinkChoice::Fzf(bin, args),
        _ => match printer {
            Printer::Pager(cmd) => SinkChoice::Pager(cmd),
            Printer::Stdout => SinkChoice::Direct,
        },
    }
}

} // verus!
