//! The decision core of an interactive batch find-and-replace pipeline:
//! first-failure-wins cancellation, the patch-record wire decoder, streaming
//! deduplication of candidate paths, the selector subprocess's invocation and
//! exit-code policy, best-effort terminal recovery, output-sink routing, and
//! the crash-safe write-then-rename commit protocol. The asynchronous I/O
//! that feeds these decisions lives outside the library and hands plain
//! values in and out.

pub mod fs_pipe;
pub mod fzf;
pub mod input;
pub mod output;
pub mod types;
pub mod udiff;

pub use types::{Abort, ErrKind, Fail};
pub use udiff::DiffRange;
