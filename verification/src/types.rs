use vstd::prelude::*;

verus! {

/// The class of an operating-system error, as carried by a failure report.
#[derive(Clone, Copy, Debug, PartialEq, Eq, Structural)]
pub enum ErrKind {
    NotFound,
    PermissionDenied,
    AlreadyExists,
    InvalidData,
    Interrupted,
    BrokenPipe,
    Other,
}

/// The failure taxonomy: every fatal condition of a run is one of these.
/// Paths and free-text reasons are carried as raw bytes, since candidate
/// paths need not be valid text.
#[derive(Clone, Debug, PartialEq, Eq)]
pub enum Fail {
    /// An I/O failure naming the path (or program) it struck and the error class.
    IO(Vec<u8>, ErrKind),
    /// An argument or validation failure, including malformed patch records.
    ArgumentError(Vec<u8>),
    /// A user-initiated interrupt, derived from the selector's exit code.
    Interrupt,
    /// An abnormal child exit: program and its exit code.
    BadExit(Vec<u8>, i32),
    /// A concurrently spawned task terminated without completing.
    Join,
}

/// The cooperative-cancellation point: at most the first published failure
/// is ever observed. Tasks share one of these for a whole run; publishing
/// after a failure has fired changes nothing.
pub struct Abort {
    fired: Option<Fail>,
}

impl Abort {
    /// The failure in flight, if any.
    pub closed spec fn view(&self) -> Option<Fail> {
        self.fired
    }

    /// A fresh bus with no failure in flight.
    pub fn new() -> (a: Abort)
        ensures
            a@ is None,
    {
        Abort { fired: None }
    }

    /// Publish a failure. First-failure-wins: if one is already in flight,
    /// this is a no-op, so later publishes can never displace the first.
    pub fn send(&mut self, fail: Fail)
        ensures
            final(self)@ == if old(self)@ is None {
                Some(fail)
            } else {
                old(self)@
            },
    {
        if self.fired.is_none() {
            self.fired = Some(fail);
        }
    }

    /// The failure observed by a subscriber: exactly the first one published.
    pub fn observed(&self) -> (r: &Option<Fail>)
        ensures
            *r == self@,
    {
        &self.fired
    }
}

/// Byte-for-byte equality of two byte vectors.
pub fn bytes_eq(a: &Vec<u8>, b: &Vec<u8>) -> (r: bool)
    ensures
        r == (a@ == b@),
{
    if a.len() != b.len() {
        return false;
    }
    let mut i: usize = 0;
    while i < a.len()
        invariant
            i <= a.len() == b.len(),
            forall|k: int| 0 <= k < i ==> a@[k] == b@[k],
        decreases a.len() - i,
    {
        if a[i] != b[i] {
            return false;
        }
        i = i + 1;
    }
    proof {
        assert(a@ =~= b@);
    }
    true
}

/// Append the bytes of `src` onto `dst`.
pub fn push_bytes(dst: &mut Vec<u8>, src: &Vec<u8>)
    ensures
        final(dst)@ == old(dst)@ + src@,
{
    let mut i: usize = 0;
    while i < src.len()
        invariant
            i <= src@.len(),
            dst@ == old(dst)@ + src@.subrange(0, i as int),
        decreases src@.len() - i,
    {
        dst.push(src[i]);
        proof {
            assert(old(dst)@ + src@.subrange(0, i + 1) =~= (old(dst)@ + src@.subrange(
                0,
                i as int,
            )).push(src@[i as int]));
        }
        i = i + 1;
    }
    proof {
        assert(src@.subrange(0, src@.len() as int) =~= src@);
    }
}

/// A fresh byte vector with the same contents.
pub fn copy_bytes(src: &Vec<u8>) -> (out: Vec<u8>)
    ensures
        out@ == src@,
{
    let mut out: Vec<u8> = Vec::new();
    push_bytes(&mut out, src);
    proof {
        assert(Seq::<u8>::empty() + src@ =~= src@);
    }
    out
}

} // verus!
