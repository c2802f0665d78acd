use crate::types::{copy_bytes, push_bytes, ErrKind, Fail};
use vstd::prelude::*;

verus! {

// ---------------------------------------------------------------------------
// Reading a file for rendering.
// ---------------------------------------------------------------------------

/// A file's metadata as the committer needs it: whether it is a regular
/// file, and its permission bits.
#[derive(Clone, Copy, Debug, PartialEq, Eq, Structural)]
pub struct FileMeta {
    pub is_regular: bool,
    pub mode: u32,
}

/// A file's metadata plus its textual content at read time.
pub struct Slurpee {
    pub meta: FileMeta,
    pub content: Vec<u8>,
}

/// What reading the bytes of an opened file produced: its content, content
/// that is not valid text, or a genuine read failure.
pub enum ReadOutcome {
    Content(Vec<u8>),
    InvalidText,
    Failed(ErrKind),
}

/// Classify a read: a non-regular file has empty content without any read
/// being consulted; content that is not valid text is tolerated as empty
/// content, not an error; a genuine read failure is an I/O failure naming
/// the path.
pub fn finish_slurp(path: &Vec<u8>, meta: FileMeta, read: ReadOutcome) -> (r: Result<Slurpee, Fail>)
    ensures
        !meta.is_regular ==> (r matches Ok(s) && s.meta == meta && s.content@ =~= Seq::<
            u8,
        >::empty()),
        meta.is_regular ==> match read {
            ReadOutcome::Content(c) => r matches Ok(s) && s.meta == meta && s.content@ == c@,
            ReadOutcome::InvalidText => r matches Ok(s) && s.meta == meta && s.content@ =~= Seq::<
                u8,
            >::empty(),
            ReadOutcome::Failed(k) => r matches Err(Fail::IO(p, kk)) && p@ == path@ && kk == k,
        },
{
    if !meta.is_regular {
        return Ok(Slurpee { meta, content: Vec::new() });
    }
    match read {
        ReadOutcome::Content(c) => Ok(Slurpee { meta, content: c }),
        ReadOutcome::InvalidText => Ok(Slurpee { meta, content: Vec::new() }),
        ReadOutcome::Failed(k) => Err(Fail::IO(copy_bytes(path), k)),
    }
}

// ---------------------------------------------------------------------------
// The write-then-rename commit protocol.
// ---------------------------------------------------------------------------

/// A lowercase hexadecimal digit.
pub open spec fn is_lower_hex(b: u8) -> bool {
    (48 <= b <= 57) || (97 <= b <= 102)
}

/// Relies on uuid::Uuid::new_v4 and its simple formatting: a freshly
/// generated random token of exactly 32 lowercase hexadecimal characters.
/// The token is random, so only its shape is promised.
#[verifier::external_body]
fn fresh_token() -> (t: Vec<u8>)
    ensures
        t@.len() == 32,
        forall|i: int| 0 <= i < t@.len() ==> is_lower_hex(#[trigger] t@[i]),
{
    uuid::Uuid::new_v4().simple().to_string().into_bytes()
}

/// The fixed separator between the target's name and the commit token.
pub open spec fn commit_separator() -> Seq<u8> {
    seq![95u8, 95u8, 95u8]
}

/// The sibling temporary name: the target path itself, the fixed separator,
/// and a fresh random token — in the target's own directory, so the final
/// rename stays within one filesystem, and never equal to the target.
pub fn temp_sibling(canonical: &Vec<u8>) -> (tmp: Vec<u8>)
    ensures
        tmp@.len() == canonical@.len() + 35,
        tmp@.subrange(0, canonical@.len() as int) == canonical@,
        tmp@.subrange(canonical@.len() as int, canonical@.len() + 3 as int) == commit_separator(),
        forall|i: int| canonical@.len() + 3 <= i < tmp@.len() ==> is_lower_hex(#[trigger] tmp@[i]),
        tmp@ != canonical@,
{
    let mut tmp = copy_bytes(canonical);
    tmp.push(95);
    tmp.push(95);
    tmp.push(95);
    let token = fresh_token();
    push_bytes(&mut tmp, &token);
    proof {
        assert(tmp@.subrange(0, canonical@.len() as int) =~= canonical@);
        assert(tmp@.subrange(canonical@.len() as int, canonical@.len() + 3 as int)
            =~= commit_separator());
        assert forall|i: int| canonical@.len() + 3 <= i < tmp@.len() implies is_lower_hex(
            #[trigger] tmp@[i],
        ) by {
            assert(tmp@[i] == token@[i - (canonical@.len() + 3 as int)]);
        }
    }
    tmp
}

/// One file as the commit protocol sees it: permission bits and content.
pub struct FileData {
    pub mode: u32,
    pub content: Seq<u8>,
}

/// The externally visible state of the directory the protocol touches: each
/// existing path maps to its data.
pub struct DirState {
    pub files: Map<Seq<u8>, FileData>,
}

/// Create a path exclusively: it appears, empty, with the creation mode.
pub open spec fn step_create(d: DirState, p: Seq<u8>, mode: u32) -> DirState {
    DirState { files: d.files.insert(p, FileData { mode, content: Seq::empty() }) }
}

/// Apply permission bits to an existing path, keeping its content.
pub open spec fn step_chmod(d: DirState, p: Seq<u8>, mode: u32) -> DirState {
    DirState { files: d.files.insert(p, FileData { mode, content: d.files[p].content }) }
}

/// Replace the content of an existing path, keeping its permission bits.
pub open spec fn step_write(d: DirState, p: Seq<u8>, text: Seq<u8>) -> DirState {
    DirState { files: d.files.insert(p, FileData { mode: d.files[p].mode, content: text }) }
}

/// Rename one path over another: the source disappears and its data stands
/// at the destination.
pub open spec fn step_rename(d: DirState, from: Seq<u8>, to: Seq<u8>) -> DirState {
    DirState { files: d.files.remove(from).insert(to, d.files[from]) }
}

/// The staged state of a commit: the temporary sibling created exclusively,
/// given the original's permission bits, and filled with the final text —
/// everything up to, but not including, the rename.
pub open spec fn commit_staged(
    d: DirState,
    target: Seq<u8>,
    tmp: Seq<u8>,
    create_mode: u32,
    text: Seq<u8>,
) -> DirState {
    step_write(step_chmod(step_create(d, tmp, create_mode), tmp, d.files[target].mode), tmp, text)
}

/// Crash safety of the write-then-rename protocol. A crash at any point
/// before the rename leaves the target — and every other pre-existing path —
/// byte-for-byte unchanged; only the temporary sibling is new. A crash
/// immediately after the rename leaves the final text at the target under
/// the original's permission bits, with the temporary gone and everything
/// else untouched.
pub proof fn lemma_commit_crash_safety(
    d: DirState,
    target: Seq<u8>,
    tmp: Seq<u8>,
    create_mode: u32,
    text: Seq<u8>,
)
    requires
        d.files.dom().contains(target),
        !d.files.dom().contains(tmp),
        tmp != target,
    ensures
        ({
            let staged = commit_staged(d, target, tmp, create_mode, text);
            &&& staged.files.dom().contains(target)
            &&& staged.files[target] == d.files[target]
            &&& forall|p: Seq<u8>|
                p != tmp ==> ((#[trigger] staged.files.dom().contains(p)) == d.files.dom().contains(
                    p,
                ) && (d.files.dom().contains(p) ==> staged.files[p] == d.files[p]))
        }),
        ({
            let done = step_rename(
                commit_staged(d, target, tmp, create_mode, text),
                tmp,
                target,
            );
            &&& done.files.dom().contains(target)
            &&& done.files[target] == FileData {
                mode: d.files[target].mode,
                content: text,
            }
            &&& !done.files.dom().contains(tmp)
            &&& forall|p: Seq<u8>|
                p != tmp && p != target ==> ((#[trigger] done.files.dom().contains(p))
                    == d.files.dom().contains(p) && (d.files.dom().contains(p) ==> done.files[p]
                    == d.files[p]))
        }),
{
    let staged = commit_staged(d, target, tmp, create_mode, text);
    assert(staged.files[tmp] == FileData { mode: d.files[target].mode, content: text });
}

// ---------------------------------------------------------------------------
// An executable model of the touched directory, for exercising the protocol.
// ---------------------------------------------------------------------------

/// The data of one stored entry.
pub open spec fn entry_data(e: (Vec<u8>, (u32, Vec<u8>))) -> FileData {
    FileData { mode: e.1.0, content: e.1.1@ }
}

/// The directory an entry list denotes; later entries would win, though a
/// well-formed model never repeats a key.
pub open spec fn entries_map(s: Seq<(Vec<u8>, (u32, Vec<u8>))>) -> Map<Seq<u8>, FileData>
    decreases s.len(),
{
    if s.len() == 0 {
        Map::empty()
    } else {
        entries_map(s.drop_last()).insert(s.last().0@, entry_data(s.last()))
    }
}

/// No path occurs twice.
pub open spec fn distinct_keys(s: Seq<(Vec<u8>, (u32, Vec<u8>))>) -> bool {
    forall|i: int, j: int| 0 <= i < j < s.len() ==> (#[trigger] s[i]).0@ != (#[trigger] s[j]).0@
}

/// A path is in the denoted directory exactly when some entry holds it.
proof fn lemma_entries_map_dom(s: Seq<(Vec<u8>, (u32, Vec<u8>))>, k: Seq<u8>)
    ensures
        entries_map(s).dom().contains(k) <==> exists|i: int| 0 <= i < s.len() && (#[trigger] s[i]).0@
            == k,
    decreases s.len(),
{
    if s.len() > 0 {
        lemma_entries_map_dom(s.drop_last(), k);
        if entries_map(s).dom().contains(k) {
            if s.last().0@ == k {
                assert(s[s.len() - 1].0@ == k);
            } else {
                let i = choose|i: int| 0 <= i < s.len() - 1 && (#[trigger] s.drop_last()[i]).0@
                    == k;
                assert(s[i].0@ == k);
            }
        }
        if exists|i: int| 0 <= i < s.len() && (#[trigger] s[i]).0@ == k {
            let i = choose|i: int| 0 <= i < s.len() && (#[trigger] s[i]).0@ == k;
            if i < s.len() - 1 {
                assert(s.drop_last()[i].0@ == k);
            }
        }
    }
}

/// Removing one entry of a well-formed list removes exactly its path.
proof fn lemma_entries_map_remove(s: Seq<(Vec<u8>, (u32, Vec<u8>))>, i: int)
    requires
        distinct_keys(s),
        0 <= i < s.len(),
    ensures
        entries_map(s.remove(i)) =~= entries_map(s).remove(s[i].0@),
        entries_map(s)[s[i].0@] == entry_data(s[i]),
        entries_map(s).dom().contains(s[i].0@),
    decreases s.len(),
{
    let k = s[i].0@;
    if i == s.len() - 1 {
        assert(s.remove(i) =~= s.drop_last());
        assert(!entries_map(s.drop_last()).dom().contains(k)) by {
            lemma_entries_map_dom(s.drop_last(), k);
        }
        assert(entries_map(s.drop_last()) =~= entries_map(s.drop_last()).insert(
            k,
            entry_data(s.last()),
        ).remove(k));
    } else {
        assert forall|a: int, b: int| 0 <= a < b < s.drop_last().len() implies (
        #[trigger] s.drop_last()[a]).0@ != (#[trigger] s.drop_last()[b]).0@ by {
            assert(s.drop_last()[a] == s[a] && s.drop_last()[b] == s[b]);
        }
        lemma_entries_map_remove(s.drop_last(), i);
        assert(s.remove(i).drop_last() =~= s.drop_last().remove(i));
        assert(s.remove(i).last() == s.last());
        assert(k != s.last().0@);
        assert(entries_map(s.remove(i)) == entries_map(s.drop_last().remove(i)).insert(
            s.last().0@,
            entry_data(s.last()),
        ));
        assert(entries_map(s.drop_last()).remove(k).insert(s.last().0@, entry_data(s.last()))
            =~= entries_map(s.drop_last()).insert(s.last().0@, entry_data(s.last())).remove(k));
    }
}

/// An executable image of the directory the protocol touches: one entry per
/// path, each with its permission bits and content.
pub struct DirModel {
    entries: Vec<(Vec<u8>, (u32, Vec<u8>))>,
}

impl DirModel {
    /// The directory this model denotes.
    pub closed spec fn view(&self) -> DirState {
        DirState { files: entries_map(self.entries@) }
    }

    /// Well-formed: no path stored twice.
    pub closed spec fn wf(&self) -> bool {
        distinct_keys(self.entries@)
    }

    /// An empty directory.
    pub fn new() -> (d: DirModel)
        ensures
            d.wf(),
            d@.files =~= Map::<Seq<u8>, FileData>::empty(),
    {
        DirModel { entries: Vec::new() }
    }

    /// Index of the entry holding `path`, if any.
    fn find(&self, path: &Vec<u8>) -> (r: Option<usize>)
        ensures
            match r {
                Some(i) => i < self.entries@.len() && self.entries@[i as int].0@ == path@,
                None => forall|t: int|
                    0 <= t < self.entries@.len() ==> (#[trigger] self.entries@[t]).0@ != path@,
            },
    {
        let mut k: usize = 0;
        while k < self.entries.len()
            invariant
                k <= self.entries@.len(),
                forall|t: int| 0 <= t < k ==> (#[trigger] self.entries@[t]).0@ != path@,
            decreases self.entries@.len() - k,
        {
            if crate::types::bytes_eq(&self.entries[k].0, path) {
                return Some(k);
            }
            k = k + 1;
        }
        None
    }

    /// Whether `path` exists, and its data if so.
    pub fn lookup(&self, path: &Vec<u8>) -> (r: Option<(u32, Vec<u8>)>)
        requires
            self.wf(),
        ensures
            match r {
                Some(e) => self@.files.dom().contains(path@) && self@.files[path@] == (FileData {
                    mode: e.0,
                    content: e.1@,
                }),
                None => !self@.files.dom().contains(path@),
            },
    {
        match self.find(path) {
            Some(i) => {
                proof {
                    lemma_entries_map_remove(self.entries@, i as int);
                }
                Some((self.entries[i].1.0, copy_bytes(&self.entries[i].1.1)))
            },
            None => {
                proof {
                    lemma_entries_map_dom(self.entries@, path@);
                }
                None
            },
        }
    }

    /// Create `path` exclusively with the given creation mode: fails, with
    /// nothing changed, exactly when the path already exists.
    pub fn create_exclusive(&mut self, path: &Vec<u8>, mode: u32) -> (ok: bool)
        requires
            old(self).wf(),
        ensures
            final(self).wf(),
            ok == !old(self)@.files.dom().contains(path@),
            ok ==> final(self)@ == step_create(old(self)@, path@, mode),
            !ok ==> final(self)@ == old(self)@,
    {
        proof {
            lemma_entries_map_dom(self.entries@, path@);
        }
        match self.find(path) {
            Some(_) => false,
            None => {
                let ghost pre = self.entries@;
                self.entries.push((copy_bytes(path), (mode, Vec::new())));
                proof {
                    assert(self.entries@.drop_last() =~= pre);
                    assert(entry_data(self.entries@.last()) == (FileData {
                        mode,
                        content: Seq::<u8>::empty(),
                    }));
                    assert forall|a: int, b: int|
                        0 <= a < b < self.entries@.len() implies (#[trigger] self.entries@[a]).0@
                        != (#[trigger] self.entries@[b]).0@ by {
                        if b == self.entries@.len() - 1 {
                            assert(self.entries@[a] == pre[a]);
                        } else {
                            assert(self.entries@[a] == pre[a] && self.entries@[b] == pre[b]);
                        }
                    }
                }
                true
            },
        }
    }

    /// Apply permission bits to an existing path: fails, with nothing
    /// changed, exactly when the path does not exist.
    pub fn set_mode(&mut self, path: &Vec<u8>, mode: u32) -> (ok: bool)
        requires
            old(self).wf(),
        ensures
            final(self).wf(),
            ok == old(self)@.files.dom().contains(path@),
            ok ==> final(self)@ == step_chmod(old(self)@, path@, mode),
            !ok ==> final(self)@ == old(self)@,
    {
        match self.find(path) {
            Some(i) => {
                let ghost pre = self.entries@;
                let entry = self.entries.remove(i);
                proof {
                    lemma_entries_map_remove(pre, i as int);
                    lemma_remove_distinct(pre, i as int);
                }
                let content = entry.1.1;
                self.entries.push((entry.0, (mode, content)));
                proof {
                    lemma_push_fresh(pre.remove(i as int), self.entries@, path@);
                    assert(entries_map(self.entries@) =~= entries_map(pre).insert(
                        path@,
                        FileData { mode, content: entries_map(pre)[path@].content },
                    ));
                }
                true
            },
            None => {
                proof {
                    lemma_entries_map_dom(self.entries@, path@);
                }
                false
            },
        }
    }

    /// Replace the content of an existing path: fails, with nothing changed,
    /// exactly when the path does not exist.
    pub fn write(&mut self, path: &Vec<u8>, text: &Vec<u8>) -> (ok: bool)
        requires
            old(self).wf(),
        ensures
            final(self).wf(),
            ok == old(self)@.files.dom().contains(path@),
            ok ==> final(self)@ == step_write(old(self)@, path@, text@),
            !ok ==> final(self)@ == old(self)@,
    {
        match self.find(path) {
            Some(i) => {
                let ghost pre = self.entries@;
                let entry = self.entries.remove(i);
                proof {
                    lemma_entries_map_remove(pre, i as int);
                    lemma_remove_distinct(pre, i as int);
                }
                self.entries.push((entry.0, (entry.1.0, copy_bytes(text))));
                proof {
                    lemma_push_fresh(pre.remove(i as int), self.entries@, path@);
                    assert(entries_map(self.entries@) =~= entries_map(pre).insert(
                        path@,
                        FileData { mode: entries_map(pre)[path@].mode, content: text@ },
                    ));
                }
                true
            },
            None => {
                proof {
                    lemma_entries_map_dom(self.entries@, path@);
                }
                false
            },
        }
    }

    /// Rename `from` over `to`, replacing anything standing at `to`: fails,
    /// with nothing changed, exactly when `from` does not exist.
    pub fn rename(&mut self, from: &Vec<u8>, to: &Vec<u8>) -> (ok: bool)
        requires
            old(self).wf(),
            from@ != to@,
        ensures
            final(self).wf(),
            ok == old(self)@.files.dom().contains(from@),
            ok ==> final(self)@ == step_rename(old(self)@, from@, to@),
            !ok ==> final(self)@ == old(self)@,
    {
        match self.find(from) {
            Some(i) => {
                let ghost pre = self.entries@;
                let entry = self.entries.remove(i);
                proof {
                    lemma_entries_map_remove(pre, i as int);
                    lemma_remove_distinct(pre, i as int);
                }
                let ghost mid = self.entries@;
                match self.find(to) {
                    Some(j) => {
                        let _ = self.entries.remove(j);
                        proof {
                            lemma_entries_map_remove(mid, j as int);
                            lemma_remove_distinct(mid, j as int);
                        }
                    },
                    None => {
                    },
                }
                let ghost mid2 = self.entries@;
                self.entries.push((copy_bytes(to), entry.1));
                proof {
                    lemma_push_fresh(mid2, self.entries@, to@);
                    assert(entries_map(self.entries@) =~= entries_map(pre).remove(from@).insert(
                        to@,
                        entries_map(pre)[from@],
                    )) by {
                        if mid2 != mid {
                        } else {
                            lemma_entries_map_dom(mid, to@);
                        }
                    }
                }
                true
            },
            None => {
                proof {
                    lemma_entries_map_dom(self.entries@, from@);
                }
                false
            },
        }
    }
}

/// Removing an entry keeps the remaining paths distinct, and the removed
/// path is no longer stored.
proof fn lemma_remove_distinct(s: Seq<(Vec<u8>, (u32, Vec<u8>))>, i: int)
    requires
        distinct_keys(s),
        0 <= i < s.len(),
    ensures
        distinct_keys(s.remove(i)),
        forall|t: int|
            0 <= t < s.remove(i).len() ==> (#[trigger] s.remove(i)[t]).0@ != s[i].0@,
{
    let r = s.remove(i);
    assert forall|a: int, b: int| 0 <= a < b < r.len() implies (#[trigger] r[a]).0@ != (
    #[trigger] r[b]).0@ by {
        let ra: int = if a < i {
            a
        } else {
            a + 1
        };
        let rb: int = if b < i {
            b
        } else {
            b + 1
        };
        assert(r[a] == s[ra] && r[b] == s[rb]);
    }
    assert forall|t: int| 0 <= t < r.len() implies (#[trigger] r[t]).0@ != s[i].0@ by {
        let rt: int = if t < i {
            t
        } else {
            t + 1
        };
        assert(r[t] == s[rt]);
    }
}

/// Appending an entry whose path is not yet stored keeps paths distinct and
/// adds exactly that path on top.
proof fn lemma_push_fresh(
    pre: Seq<(Vec<u8>, (u32, Vec<u8>))>,
    post: Seq<(Vec<u8>, (u32, Vec<u8>))>,
    k: Seq<u8>,
)
    requires
        distinct_keys(pre),
        post.len() == pre.len() + 1,
        post == pre.push(post.last()),
        post.last().0@ == k,
        forall|t: int| 0 <= t < pre.len() ==> (#[trigger] pre[t]).0@ != k,
    ensures
        distinct_keys(post),
        entries_map(post) == entries_map(pre).insert(k, entry_data(post.last())),
{
    assert forall|a: int, b: int| 0 <= a < b < post.len() implies (#[trigger] post[a]).0@ != (
    #[trigger] post[b]).0@ by {
        if b < post.len() - 1 {
            assert(post[a] == pre[a] && post[b] == pre[b]);
        } else {
            assert(post[a] == pre[a]);
        }
    }
    assert(post.drop_last() =~= pre);
}

} // verus!
