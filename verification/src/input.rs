use crate::types::{bytes_eq, Fail};
use crate::udiff::DiffRange;
use vstd::prelude::*;

verus! {

// ---------------------------------------------------------------------------
// The wire form of one patch record.
//
// A record is a raw byte path followed by a four-blank-line sentinel and a
// span header, all anchored at the very end of the record:
//
//     <path>\n\n\n\n@@ -<beforeStart>,<beforeCount> +<afterStart>,<afterCount> @@
//
// The path may hold arbitrary bytes, the header's four numbers are decimal
// digit runs, and the two starts are 1-based on the wire and 0-based once
// decoded.
// ---------------------------------------------------------------------------

/// An ASCII decimal digit.
pub open spec fn is_digit(b: u8) -> bool {
    48 <= b <= 57
}

/// Every byte of `s` is an ASCII decimal digit.
pub open spec fn all_digits(s: Seq<u8>) -> bool {
    forall|i: int| 0 <= i < s.len() ==> is_digit(#[trigger] s[i])
}

/// The number a digit run denotes, most significant digit first.
pub open spec fn digits_val(s: Seq<u8>) -> nat
    decreases s.len(),
{
    if s.len() == 0 {
        0
    } else {
        digits_val(s.drop_last()) * 10 + (s.last() - 48) as nat
    }
}

/// The bytes `"\n\n\n\n@@ -"`: the sentinel and the header's opening mark.
pub open spec fn sentinel() -> Seq<u8> {
    seq![10u8, 10u8, 10u8, 10u8, 64u8, 64u8, 32u8, 45u8]
}

/// The bytes `" +"` between the two spans.
pub open spec fn mid_mark() -> Seq<u8> {
    seq![32u8, 43u8]
}

/// The bytes `" @@"` closing the header.
pub open spec fn tail_mark() -> Seq<u8> {
    seq![32u8, 64u8, 64u8]
}

/// `rec` is exactly `path`, the sentinel, and a header made of the four
/// digit runs `d1..d4` (before start, before count, after start, after count).
pub open spec fn wire_encoding(
    rec: Seq<u8>,
    path: Seq<u8>,
    d1: Seq<u8>,
    d2: Seq<u8>,
    d3: Seq<u8>,
    d4: Seq<u8>,
) -> bool {
    &&& d1.len() >= 1 && all_digits(d1)
    &&& d2.len() >= 1 && all_digits(d2)
    &&& d3.len() >= 1 && all_digits(d3)
    &&& d4.len() >= 1 && all_digits(d4)
    &&& rec == path + sentinel() + d1 + seq![44u8] + d2 + mid_mark() + d3 + seq![44u8] + d4
        + tail_mark()
}

/// Start of the maximal digit run that ends just before position `j`.
pub open spec fn digit_run_start(s: Seq<u8>, j: int) -> int
    decreases j,
{
    if j <= 0 {
        0
    } else if j <= s.len() && is_digit(s[j - 1]) {
        digit_run_start(s, j - 1)
    } else {
        j
    }
}

/// `digit_run_start` lands inside bounds, the run it delimits is all digits,
/// and the run is maximal: the byte just before it, if any, is not a digit.
pub proof fn lemma_digit_run_start(s: Seq<u8>, j: int)
    requires
        0 <= j <= s.len(),
    ensures
        0 <= digit_run_start(s, j) <= j,
        all_digits(s.subrange(digit_run_start(s, j), j)),
        digit_run_start(s, j) > 0 ==> !is_digit(s[digit_run_start(s, j) - 1]),
    decreases j,
{
    if j > 0 && is_digit(s[j - 1]) {
        lemma_digit_run_start(s, j - 1);
        let i = digit_run_start(s, j - 1);
        assert(s.subrange(i, j).drop_last() =~= s.subrange(i, j - 1));
        assert forall|k: int| 0 <= k < j - i implies is_digit(#[trigger] s.subrange(i, j)[k]) by {
            if k < j - 1 - i {
                assert(s.subrange(i, j - 1)[k] == s.subrange(i, j)[k]);
            }
        }
    }
}

/// A run known to be all digits and bounded by a non-digit (or the start of
/// the sequence) is exactly what `digit_run_start` finds.
pub proof fn lemma_digit_run_start_exact(s: Seq<u8>, i: int, j: int)
    requires
        0 <= i <= j <= s.len(),
        all_digits(s.subrange(i, j)),
        i > 0 ==> !is_digit(s[i - 1]),
    ensures
        digit_run_start(s, j) == i,
    decreases j - i,
{
    if j > i {
        assert(is_digit(s[j - 1])) by {
            assert(s.subrange(i, j)[j - 1 - i] == s[j - 1]);
        }
        assert(s.subrange(i, j - 1) =~= s.subrange(i, j).subrange(0, j - 1 - i));
        assert forall|k: int| 0 <= k < j - 1 - i implies is_digit(#[trigger] s.subrange(i, j - 1)[k])
            by {
            assert(s.subrange(i, j)[k] == s.subrange(i, j - 1)[k]);
        }
        lemma_digit_run_start_exact(s, i, j - 1);
    }
}

/// The deterministic reading of one record, anchored at its end: the path,
/// the decoded range with both starts shifted to 0-based, or nothing when the
/// record is not in wire form (or a number does not fit in `usize`, or a
/// wire start is 0 and has no 0-based form).
pub open spec fn parse_record(rec: Seq<u8>) -> Option<(Seq<u8>, DiffRange)> {
    let n = rec.len() as int;
    if n < 19 || rec.subrange(n - 3, n) != tail_mark() {
        None
    } else {
        let j4 = n - 3;
        let i4 = digit_run_start(rec, j4);
        if i4 >= j4 || i4 < 1 || rec[i4 - 1] != 44u8 {
            None
        } else {
            let j3 = i4 - 1;
            let i3 = digit_run_start(rec, j3);
            if i3 >= j3 || i3 < 2 || rec.subrange(i3 - 2, i3) != mid_mark() {
                None
            } else {
                let j2 = i3 - 2;
                let i2 = digit_run_start(rec, j2);
                if i2 >= j2 || i2 < 1 || rec[i2 - 1] != 44u8 {
                    None
                } else {
                    let j1 = i2 - 1;
                    let i1 = digit_run_start(rec, j1);
                    if i1 >= j1 || i1 < 8 || rec.subrange(i1 - 8, i1) != sentinel() {
                        None
                    } else {
                        let b1 = digits_val(rec.subrange(i1, j1));
                        let bc = digits_val(rec.subrange(i2, j2));
                        let a1 = digits_val(rec.subrange(i3, j3));
                        let ac = digits_val(rec.subrange(i4, j4));
                        if b1 < 1 || a1 < 1 || b1 > usize::MAX || bc > usize::MAX || a1
                            > usize::MAX || ac > usize::MAX {
                            None
                        } else {
                            Some(
                                (
                                    rec.subrange(0, i1 - 8),
                                    DiffRange {
                                        before_start: (b1 - 1) as usize,
                                        before_count: bc as usize,
                                        after_start: (a1 - 1) as usize,
                                        after_count: ac as usize,
                                    },
                                ),
                            )
                        }
                    }
                }
            }
        }
    }
}

/// Decoding recovers a wire encoding exactly: for every record made of a
/// path, the sentinel, and four in-range digit runs whose starts are at
/// least 1, the reading is the path and the ranges with each start shifted
/// down by exactly one (the 1-based to 0-based conversion is exact).
pub proof fn lemma_parse_wire_encoding(
    rec: Seq<u8>,
    path: Seq<u8>,
    d1: Seq<u8>,
    d2: Seq<u8>,
    d3: Seq<u8>,
    d4: Seq<u8>,
)
    requires
        wire_encoding(rec, path, d1, d2, d3, d4),
        1 <= digits_val(d1) <= usize::MAX,
        digits_val(d2) <= usize::MAX,
        1 <= digits_val(d3) <= usize::MAX,
        digits_val(d4) <= usize::MAX,
    ensures
        parse_record(rec) == Some(
            (
                path,
                DiffRange {
                    before_start: (digits_val(d1) - 1) as usize,
                    before_count: digits_val(d2) as usize,
                    after_start: (digits_val(d3) - 1) as usize,
                    after_count: digits_val(d4) as usize,
                },
            ),
        ),
{
    let p = path.len() as int;
    let i1 = p + 8;
    let j1 = i1 + d1.len();
    let i2 = j1 + 1;
    let j2 = i2 + d2.len();
    let i3 = j2 + 2;
    let j3 = i3 + d3.len();
    let i4 = j3 + 1;
    let j4 = i4 + d4.len();
    let n = j4 + 3;
    assert(rec.len() == n);
    assert(rec.subrange(0, p) =~= path);
    assert(rec.subrange(p, i1) =~= sentinel());
    assert(rec.subrange(i1, j1) =~= d1);
    assert(rec[j1] == 44u8);
    assert(rec.subrange(i2, j2) =~= d2);
    assert(rec.subrange(j2, i3) =~= mid_mark());
    assert(rec.subrange(i3, j3) =~= d3);
    assert(rec[j3] == 44u8);
    assert(rec.subrange(i4, j4) =~= d4);
    assert(rec.subrange(j4, n) =~= tail_mark());
    assert(!is_digit(rec[i4 - 1]));
    lemma_digit_run_start_exact(rec, i4, j4);
    assert(!is_digit(rec[i3 - 1])) by {
        assert(rec.subrange(j2, i3)[1] == rec[j2 + 1]);
    }
    lemma_digit_run_start_exact(rec, i3, j3);
    assert(!is_digit(rec[i2 - 1]));
    lemma_digit_run_start_exact(rec, i2, j2);
    assert(!is_digit(rec[i1 - 1])) by {
        assert(rec.subrange(p, i1)[7] == rec[p + 7]);
    }
    lemma_digit_run_start_exact(rec, i1, j1);
}

/// Decoding succeeds only on wire encodings: whenever a record parses, it
/// splits into a path, the sentinel, and four digit runs whose values are
/// exactly the decoded spans with the starts shifted back up by one.
pub proof fn lemma_parse_record_sound(rec: Seq<u8>)
    requires
        parse_record(rec) is Some,
    ensures
        ({
            let (path, r) = parse_record(rec).unwrap();
            exists|d1: Seq<u8>, d2: Seq<u8>, d3: Seq<u8>, d4: Seq<u8>|
                wire_encoding(rec, path, d1, d2, d3, d4) && digits_val(d1) == r.before_start + 1
                    && digits_val(d2) == r.before_count && digits_val(d3) == r.after_start + 1
                    && digits_val(d4) == r.after_count
        }),
{
    let n = rec.len() as int;
    let j4 = n - 3;
    let i4 = digit_run_start(rec, j4);
    let j3 = i4 - 1;
    let i3 = digit_run_start(rec, j3);
    let j2 = i3 - 2;
    let i2 = digit_run_start(rec, j2);
    let j1 = i2 - 1;
    let i1 = digit_run_start(rec, j1);
    lemma_digit_run_start(rec, j4);
    lemma_digit_run_start(rec, j3);
    lemma_digit_run_start(rec, j2);
    lemma_digit_run_start(rec, j1);
    let path = rec.subrange(0, i1 - 8);
    let d1 = rec.subrange(i1, j1);
    let d2 = rec.subrange(i2, j2);
    let d3 = rec.subrange(i3, j3);
    let d4 = rec.subrange(i4, j4);
    assert(rec =~= path + sentinel() + d1 + seq![44u8] + d2 + mid_mark() + d3 + seq![44u8] + d4
        + tail_mark()) by {
        assert(rec.subrange(i1 - 8, i1) == sentinel());
        assert(rec.subrange(j2, i3) == mid_mark());
        assert(rec.subrange(j4, n) == tail_mark());
        assert forall|k: int| i1 - 8 <= k < i1 implies rec[k] == sentinel()[k - (i1 - 8)] by {
            assert(rec.subrange(i1 - 8, i1)[k - (i1 - 8)] == rec[k]);
        }
        assert forall|k: int| j2 <= k < i3 implies rec[k] == mid_mark()[k - j2] by {
            assert(rec.subrange(j2, i3)[k - j2] == rec[k]);
        }
        assert forall|k: int| j4 <= k < n implies rec[k] == tail_mark()[k - j4] by {
            assert(rec.subrange(j4, n)[k - j4] == rec[k]);
        }
    }
    assert(wire_encoding(rec, path, d1, d2, d3, d4));
    let r = parse_record(rec).unwrap().1;
    assert(parse_record(rec).unwrap().0 == path);
    assert(1 <= digits_val(d1) <= usize::MAX && digits_val(d2) <= usize::MAX && 1 <= digits_val(d3)
        <= usize::MAX && digits_val(d4) <= usize::MAX);
    assert(digits_val(d1) == r.before_start + 1 && digits_val(d2) == r.before_count && digits_val(
        d3,
    ) == r.after_start + 1 && digits_val(d4) == r.after_count);
    assert(exists|e1: Seq<u8>, e2: Seq<u8>, e3: Seq<u8>, e4: Seq<u8>|
        wire_encoding(rec, path, e1, e2, e3, e4) && digits_val(e1) == r.before_start + 1
            && digits_val(e2) == r.before_count && digits_val(e3) == r.after_start + 1
            && digits_val(e4) == r.after_count) by {
        assert(wire_encoding(rec, path, d1, d2, d3, d4) && digits_val(d1) == r.before_start + 1
            && digits_val(d2) == r.before_count && digits_val(d3) == r.after_start + 1
            && digits_val(d4) == r.after_count);
    }
}

/// Extending an all-digit run on the right never shrinks its value.
proof fn lemma_digits_val_extend(s: Seq<u8>, i: int, k: int, j: int)
    requires
        0 <= i <= k <= j <= s.len(),
        all_digits(s.subrange(i, j)),
    ensures
        digits_val(s.subrange(i, k)) <= digits_val(s.subrange(i, j)),
    decreases j - k,
{
    if k < j {
        lemma_digits_val_extend(s, i, k + 1, j);
        assert(s.subrange(i, k + 1).drop_last() =~= s.subrange(i, k));
        assert(is_digit(s[k])) by {
            assert(s.subrange(i, j)[k - i] == s[k]);
        }
    }
}

fn is_ascii_digit(b: u8) -> (r: bool)
    ensures
        r == is_digit(b),
{
    48 <= b && b <= 57
}

/// Walk left from `j` over digits to the start of the maximal run.
fn find_digit_run_start(rec: &Vec<u8>, j: usize) -> (i: usize)
    requires
        j <= rec@.len(),
    ensures
        i == digit_run_start(rec@, j as int),
        i <= j,
{
    let mut i = j;
    while i > 0 && is_ascii_digit(rec[i - 1])
        invariant
            i <= j <= rec@.len(),
            digit_run_start(rec@, j as int) == digit_run_start(rec@, i as int),
        decreases i,
    {
        i = i - 1;
    }
    i
}

/// Read the digit run `rec[start..end)` as a number, or report that it does
/// not fit in `usize`.
fn parse_run(rec: &Vec<u8>, start: usize, end: usize) -> (r: Option<usize>)
    requires
        start <= end <= rec@.len(),
        all_digits(rec@.subrange(start as int, end as int)),
    ensures
        match r {
            Some(v) => v == digits_val(rec@.subrange(start as int, end as int)),
            None => digits_val(rec@.subrange(start as int, end as int)) > usize::MAX,
        },
{
    let mut v: usize = 0;
    let mut i: usize = start;
    while i < end
        invariant
            start <= i <= end <= rec@.len(),
            all_digits(rec@.subrange(start as int, end as int)),
            v == digits_val(rec@.subrange(start as int, i as int)),
        decreases end - i,
    {
        let d = rec[i];
        proof {
            assert(rec@.subrange(start as int, end as int)[i - start] == rec@[i as int]);
            assert(rec@.subrange(start as int, i + 1).drop_last() =~= rec@.subrange(
                start as int,
                i as int,
            ));
        }
        let shifted = match v.checked_mul(10) {
            Some(s) => s,
            None => {
                proof {
                    lemma_digits_val_extend(rec@, start as int, i + 1, end as int);
                }
                return None;
            },
        };
        let next = match shifted.checked_add((d - 48) as usize) {
            Some(s) => s,
            None => {
                proof {
                    lemma_digits_val_extend(rec@, start as int, i + 1, end as int);
                }
                return None;
            },
        };
        v = next;
        i = i + 1;
    }
    Some(v)
}

/// One decoded patch record: the raw byte path and its edit range.
#[derive(Debug)]
pub struct DiffLine(pub Vec<u8>, pub DiffRange);

impl DiffLine {
    /// Decode one wire record. Succeeds exactly when the record carries a
    /// well-formed span header at its very end whose numbers fit, and then
    /// hands back the stripped path and the 0-based range; any malformed
    /// record is an argument failure, never skipped.
    pub fn decode(rec: &Vec<u8>) -> (r: Result<DiffLine, Fail>)
        ensures
            match r {
                Ok(line) => parse_record(rec@) == Some((line.0@, line.1)),
                Err(f) => parse_record(rec@) is None && f is ArgumentError,
            },
    {
        let n = rec.len();
        if n < 19 {
            return Err(Fail::ArgumentError(Vec::new()));
        }
        if !(rec[n - 3] == 32 && rec[n - 2] == 64 && rec[n - 1] == 64) {
            proof {
                assert(rec@.subrange(n - 3, n as int) != tail_mark()) by {
                    if rec@.subrange(n - 3, n as int) == tail_mark() {
                        assert(rec@.subrange(n - 3, n as int)[0] == rec@[n - 3]);
                        assert(rec@.subrange(n - 3, n as int)[1] == rec@[n - 2]);
                        assert(rec@.subrange(n - 3, n as int)[2] == rec@[n - 1]);
                    }
                }
            }
            return Err(Fail::ArgumentError(Vec::new()));
        }
        proof {
            assert(rec@.subrange(n - 3, n as int) =~= tail_mark());
        }
        let j4 = n - 3;
        let i4 = find_digit_run_start(rec, j4);
        if i4 >= j4 || i4 < 1 || rec[i4 - 1] != 44 {
            return Err(Fail::ArgumentError(Vec::new()));
        }
        let j3 = i4 - 1;
        let i3 = find_digit_run_start(rec, j3);
        if i3 >= j3 || i3 < 2 || !(rec[i3 - 2] == 32 && rec[i3 - 1] == 43) {
            proof {
                if i3 < j3 && i3 >= 2 {
                    assert(rec@.subrange(i3 - 2, i3 as int) != mid_mark()) by {
                        if rec@.subrange(i3 - 2, i3 as int) == mid_mark() {
                            assert(rec@.subrange(i3 - 2, i3 as int)[0] == rec@[i3 - 2]);
                            assert(rec@.subrange(i3 - 2, i3 as int)[1] == rec@[i3 - 1]);
                        }
                    }
                }
            }
            return Err(Fail::ArgumentError(Vec::new()));
        }
        proof {
            assert(rec@.subrange(i3 - 2, i3 as int) =~= mid_mark());
        }
        let j2 = i3 - 2;
        let i2 = find_digit_run_start(rec, j2);
        if i2 >= j2 || i2 < 1 || rec[i2 - 1] != 44 {
            return Err(Fail::ArgumentError(Vec::new()));
        }
        let j1 = i2 - 1;
        let i1 = find_digit_run_start(rec, j1);
        if i1 >= j1 || i1 < 8 {
            return Err(Fail::ArgumentError(Vec::new()));
        }
        if !(rec[i1 - 8] == 10 && rec[i1 - 7] == 10 && rec[i1 - 6] == 10 && rec[i1 - 5] == 10
            && rec[i1 - 4] == 64 && rec[i1 - 3] == 64 && rec[i1 - 2] == 32 && rec[i1 - 1] == 45) {
            proof {
                assert(rec@.subrange(i1 - 8, i1 as int) != sentinel()) by {
                    if rec@.subrange(i1 - 8, i1 as int) == sentinel() {
                        assert forall|k: int| 0 <= k < 8 implies #[trigger] rec@.subrange(
                            i1 - 8,
                            i1 as int,
                        )[k] == rec@[i1 - 8 + k] by {}
                        assert(rec@.subrange(i1 - 8, i1 as int)[0] == rec@[i1 - 8]);
                        assert(rec@.subrange(i1 - 8, i1 as int)[1] == rec@[i1 - 7]);
                        assert(rec@.subrange(i1 - 8, i1 as int)[2] == rec@[i1 - 6]);
                        assert(rec@.subrange(i1 - 8, i1 as int)[3] == rec@[i1 - 5]);
                        assert(rec@.subrange(i1 - 8, i1 as int)[4] == rec@[i1 - 4]);
                        assert(rec@.subrange(i1 - 8, i1 as int)[5] == rec@[i1 - 3]);
                        assert(rec@.subrange(i1 - 8, i1 as int)[6] == rec@[i1 - 2]);
                        assert(rec@.subrange(i1 - 8, i1 as int)[7] == rec@[i1 - 1]);
                    }
                }
            }
            return Err(Fail::ArgumentError(Vec::new()));
        }
        proof {
            assert(rec@.subrange(i1 - 8, i1 as int) =~= sentinel());
            lemma_digit_run_start(rec@, j1 as int);
            lemma_digit_run_start(rec@, j2 as int);
            lemma_digit_run_start(rec@, j3 as int);
            lemma_digit_run_start(rec@, j4 as int);
        }
        let b1 = match parse_run(rec, i1, j1) {
            Some(v) => v,
            None => {
                return Err(Fail::ArgumentError(Vec::new()));
            },
        };
        let bc = match parse_run(rec, i2, j2) {
            Some(v) => v,
            None => {
                return Err(Fail::ArgumentError(Vec::new()));
            },
        };
        let a1 = match parse_run(rec, i3, j3) {
            Some(v) => v,
            None => {
                return Err(Fail::ArgumentError(Vec::new()));
            },
        };
        let ac = match parse_run(rec, i4, j4) {
            Some(v) => v,
            None => {
                return Err(Fail::ArgumentError(Vec::new()));
            },
        };
        if b1 < 1 || a1 < 1 {
            return Err(Fail::ArgumentError(Vec::new()));
        }
        let mut path: Vec<u8> = Vec::new();
        let mut k: usize = 0;
        while k < i1 - 8
            invariant
                k <= i1 - 8 <= rec@.len(),
                path@ =~= rec@.subrange(0, k as int),
            decreases i1 - 8 - k,
        {
            path.push(rec[k]);
            k = k + 1;
        }
        let range = DiffRange {
            before_start: b1 - 1,
            before_count: bc,
            after_start: a1 - 1,
            after_count: ac,
        };
        Ok(DiffLine(path, range))
    }
}

// ---------------------------------------------------------------------------
// Accumulating decoded records into one entry per path.
// ---------------------------------------------------------------------------

/// One unit of work for the downstream stages: a whole file, or a set of
/// specific edit ranges within one file. Paths are raw bytes.
#[derive(Debug)]
pub enum Payload {
    Entire(Vec<u8>),
    Piecewise(Vec<u8>, Vec<DiffRange>),
}

/// The mathematical shape of the accumulated patches: one entry per path, in
/// order of first appearance, each with its ranges in order of first
/// appearance.
pub open spec fn patch_entries_view(v: Seq<(Vec<u8>, Vec<DiffRange>)>) -> Seq<
    (Seq<u8>, Seq<DiffRange>),
> {
    v.map_values(|e: (Vec<u8>, Vec<DiffRange>)| (e.0@, e.1@))
}

/// Add one decoded record to the accumulator: extend the entry of its path
/// (ignoring a range already present) or append a fresh entry.
pub open spec fn insert_range(
    acc: Seq<(Seq<u8>, Seq<DiffRange>)>,
    path: Seq<u8>,
    r: DiffRange,
) -> Seq<(Seq<u8>, Seq<DiffRange>)>
    decreases acc.len(),
{
    if acc.len() == 0 {
        seq![(path, seq![r])]
    } else if acc[0].0 == path {
        seq![(acc[0].0, if acc[0].1.contains(r) { acc[0].1 } else { acc[0].1.push(r) })]
            + acc.skip(1)
    } else {
        seq![acc[0]] + insert_range(acc.skip(1), path, r)
    }
}

/// Decode a whole sequence of records and group them by path; any record
/// that fails to decode fails the whole read.
pub open spec fn gather_spec(recs: Seq<Seq<u8>>) -> Option<Seq<(Seq<u8>, Seq<DiffRange>)>>
    decreases recs.len(),
{
    if recs.len() == 0 {
        Some(Seq::empty())
    } else {
        match gather_spec(recs.drop_last()) {
            Option::None => Option::None,
            Option::Some(acc) => match parse_record(recs.last()) {
                Option::None => Option::None,
                Option::Some((p, r)) => Some(insert_range(acc, p, r)),
            },
        }
    }
}

/// The accumulated patches are well-formed: at most one entry per path, and
/// no range recorded twice for one path.
pub open spec fn gather_wf(acc: Seq<(Seq<u8>, Seq<DiffRange>)>) -> bool {
    &&& forall|i: int, j: int|
        0 <= i < j < acc.len() ==> (#[trigger] acc[i]).0 != (#[trigger] acc[j]).0
    &&& forall|e: int, i: int, j: int|
        0 <= e < acc.len() && 0 <= i < j < acc[e].1.len() ==> (#[trigger] acc[e].1[i]) != (
        #[trigger] acc[e].1[j])
}

/// Adding one record keeps paths unique and ranges distinct: an existing
/// entry is only ever extended by a range it does not yet hold, in place,
/// and a new path lands in a fresh entry at the end.
proof fn lemma_insert_range_wf(acc: Seq<(Seq<u8>, Seq<DiffRange>)>, path: Seq<u8>, r: DiffRange)
    requires
        gather_wf(acc),
    ensures
        gather_wf(insert_range(acc, path, r)),
        insert_range(acc, path, r).len() >= acc.len(),
        forall|t: int|
            0 <= t < acc.len() ==> (#[trigger] insert_range(acc, path, r)[t]).0 == acc[t].0,
        forall|t: int|
            acc.len() <= t < insert_range(acc, path, r).len() ==> (#[trigger] insert_range(
                acc,
                path,
                r,
            )[t]).0 == path,
    decreases acc.len(),
{
    let res = insert_range(acc, path, r);
    if acc.len() == 0 {
    } else if acc[0].0 == path {
        let head = if acc[0].1.contains(r) {
            acc[0].1
        } else {
            acc[0].1.push(r)
        };
        assert forall|i: int, j: int| 0 <= i < j < head.len() implies (#[trigger] head[i]) != (
        #[trigger] head[j]) by {
            if j < acc[0].1.len() {
                assert(acc[0].1[i] != acc[0].1[j]);
            } else {
                assert(!acc[0].1.contains(r));
                assert(acc[0].1[i] == head[i]);
            }
        }
        assert forall|t: int| 0 <= t < res.len() implies (#[trigger] res[t]) == (if t == 0 {
            (acc[0].0, head)
        } else {
            acc[t]
        }) by {
            if t > 0 {
                assert(res[t] == acc.skip(1)[t - 1]);
            }
        }
    } else {
        assert forall|a: int, b: int| 0 <= a < b < acc.skip(1).len() implies (#[trigger] acc.skip(
            1,
        )[a]).0 != (#[trigger] acc.skip(1)[b]).0 by {
            assert(acc.skip(1)[a] == acc[a + 1] && acc.skip(1)[b] == acc[b + 1]);
        }
        assert forall|e: int, i: int, j: int|
            0 <= e < acc.skip(1).len() && 0 <= i < j < acc.skip(1)[e].1.len() implies (
        #[trigger] acc.skip(1)[e].1[i]) != (#[trigger] acc.skip(1)[e].1[j]) by {
            assert(acc.skip(1)[e] == acc[e + 1]);
        }
        lemma_insert_range_wf(acc.skip(1), path, r);
        let tail = insert_range(acc.skip(1), path, r);
        assert forall|t: int| 0 <= t < res.len() implies (#[trigger] res[t]) == (if t == 0 {
            acc[0]
        } else {
            tail[t - 1]
        }) by {}
        assert forall|i: int, j: int| 0 <= i < j < res.len() implies (#[trigger] res[i]).0 != (
        #[trigger] res[j]).0 by {
            if i == 0 {
                if j - 1 < acc.skip(1).len() {
                    assert(tail[j - 1].0 == acc.skip(1)[j - 1].0);
                    assert(acc.skip(1)[j - 1] == acc[j]);
                } else {
                    assert(tail[j - 1].0 == path);
                }
            }
        }
        assert forall|e: int, i: int, j: int|
            0 <= e < res.len() && 0 <= i < j < res[e].1.len() implies (#[trigger] res[e].1[i]) != (
        #[trigger] res[e].1[j]) by {
            if e > 0 {
                assert(res[e] == tail[e - 1]);
            }
        }
    }
}

/// Every successful gathering is well-formed: one entry per distinct path,
/// each holding its structurally distinct ranges.
pub proof fn lemma_gather_unique(recs: Seq<Seq<u8>>)
    requires
        gather_spec(recs) is Some,
    ensures
        gather_wf(gather_spec(recs).unwrap()),
    decreases recs.len(),
{
    if recs.len() > 0 {
        lemma_gather_unique(recs.drop_last());
        let acc = gather_spec(recs.drop_last()).unwrap();
        let (p, r) = parse_record(recs.last()).unwrap();
        lemma_insert_range_wf(acc, p, r);
    }
}

/// Skipping entries whose path differs leaves `insert_range` untouched on
/// the prefix.
proof fn lemma_insert_range_skip(
    acc: Seq<(Seq<u8>, Seq<DiffRange>)>,
    path: Seq<u8>,
    r: DiffRange,
    k: int,
)
    requires
        0 <= k <= acc.len(),
        forall|t: int| 0 <= t < k ==> (#[trigger] acc[t]).0 != path,
    ensures
        insert_range(acc, path, r) == acc.subrange(0, k) + insert_range(acc.skip(k), path, r),
    decreases k,
{
    if k == 0 {
        assert(acc.skip(0) =~= acc);
        assert(acc.subrange(0, 0) + insert_range(acc, path, r) =~= insert_range(acc, path, r));
    } else {
        lemma_insert_range_skip(acc.skip(1), path, r, k - 1);
        assert(acc.skip(1).skip(k - 1) =~= acc.skip(k));
        assert(seq![acc[0]] + (acc.skip(1).subrange(0, k - 1) + insert_range(
            acc.skip(k),
            path,
            r,
        )) =~= acc.subrange(0, k) + insert_range(acc.skip(k), path, r));
    }
}

/// Decode every record and accumulate a mapping from path to its set of
/// ranges, exactly as `gather_spec` describes: succeeds if and only if every
/// record is well-formed, keeps one entry per path in order of first
/// appearance, and collapses structurally equal ranges into one.
pub fn gather_patches(recs: &Vec<Vec<u8>>) -> (r: Result<Vec<(Vec<u8>, Vec<DiffRange>)>, Fail>)
    ensures
        match r {
            Ok(acc) => gather_spec(recs.deep_view()) == Some(patch_entries_view(acc@)),
            Err(f) => gather_spec(recs.deep_view()) is None && f is ArgumentError,
        },
{
    let mut acc: Vec<(Vec<u8>, Vec<DiffRange>)> = Vec::new();
    let mut i: usize = 0;
    proof {
        assert(recs.deep_view().subrange(0, 0) =~= Seq::<Seq<u8>>::empty());
        assert(patch_entries_view(acc@) =~= Seq::<(Seq<u8>, Seq<DiffRange>)>::empty());
    }
    while i < recs.len()
        invariant
            i <= recs@.len(),
            recs.deep_view().len() == recs@.len(),
            gather_spec(recs.deep_view().subrange(0, i as int)) == Some(patch_entries_view(acc@)),
        decreases recs@.len() - i,
    {
        let ghost pre = recs.deep_view().subrange(0, i as int);
        let line = match DiffLine::decode(&recs[i]) {
            Ok(line) => line,
            Err(f) => {
                proof {
                    assert(recs.deep_view()[i as int] =~= recs@[i as int]@);
                    lemma_gather_prefix_none(recs.deep_view(), i as int);
                }
                return Err(f);
            },
        };
        let DiffLine(path, range) = line;
        proof {
            assert(recs.deep_view()[i as int] == recs@[i as int]@);
            assert(recs.deep_view().subrange(0, i + 1).drop_last() =~= pre);
            assert(recs.deep_view().subrange(0, i + 1).last() == recs@[i as int]@);
        }
        let ghost old_acc = acc@;
        let mut k: usize = 0;
        let mut found = false;
        while k < acc.len() && !found
            invariant
                k <= acc@.len(),
                forall|t: int| 0 <= t < k ==> (#[trigger] acc@[t]).0@ != path@,
                found ==> k < acc@.len() && acc@[k as int].0@ == path@,
                acc@ == old_acc,
            decreases acc@.len() - k + (if found {
                0int
            } else {
                1int
            }),
        {
            if bytes_eq(&acc[k].0, &path) {
                found = true;
            } else {
                k = k + 1;
            }
        }
        proof {
            assert forall|t: int| 0 <= t < k implies (#[trigger] patch_entries_view(acc@)[t]).0
                != path@ by {
                assert(patch_entries_view(acc@)[t] == (acc@[t].0@, acc@[t].1@));
            }
            lemma_insert_range_skip(patch_entries_view(acc@), path@, range, k as int);
        }
        if found {
            let mut entry = acc.remove(k);
            let mut t: usize = 0;
            let mut present = false;
            while t < entry.1.len() && !present
                invariant
                    t <= entry.1@.len(),
                    !present ==> forall|u: int| 0 <= u < t ==> entry.1@[u] != range,
                    present ==> entry.1@.contains(range),
                decreases entry.1@.len() - t + (if present {
                    0int
                } else {
                    1int
                }),
            {
                if entry.1[t] == range {
                    present = true;
                } else {
                    t = t + 1;
                }
            }
            if !present {
                proof {
                    assert(!entry.1@.contains(range));
                }
                entry.1.push(range);
            }
            acc.insert(k, entry);
            proof {
                assert(patch_entries_view(acc@) =~= patch_entries_view(old_acc).subrange(
                    0,
                    k as int,
                ) + insert_range(patch_entries_view(old_acc).skip(k as int), path@, range));
            }
        } else {
            acc.push((path, range_singleton(range)));
            proof {
                assert(patch_entries_view(old_acc).skip(k as int) =~= Seq::<
                    (Seq<u8>, Seq<DiffRange>),
                >::empty());
                assert(patch_entries_view(acc@) =~= patch_entries_view(old_acc).subrange(
                    0,
                    k as int,
                ) + insert_range(patch_entries_view(old_acc).skip(k as int), path@, range));
            }
        }
        i = i + 1;
    }
    proof {
        assert(recs.deep_view().subrange(0, recs@.len() as int) =~= recs.deep_view());
    }
    Ok(acc)
}

/// A one-element range list.
fn range_singleton(r: DiffRange) -> (v: Vec<DiffRange>)
    ensures
        v@ =~= seq![r],
{
    let mut v: Vec<DiffRange> = Vec::new();
    v.push(r);
    v
}

/// Once one record fails to decode, the whole gathered read is a failure.
proof fn lemma_gather_prefix_none(recs: Seq<Seq<u8>>, i: int)
    requires
        0 <= i < recs.len(),
        parse_record(recs[i]) is None,
    ensures
        gather_spec(recs) is None,
    decreases recs.len(),
{
    if recs.len() > 0 {
        if i == recs.len() - 1 {
        } else {
            lemma_gather_prefix_none(recs.drop_last(), i);
        }
    }
}

// ---------------------------------------------------------------------------
// Streaming standard input: canonical paths are emitted once, in read order.
// ---------------------------------------------------------------------------

/// The paths a streaming run emits for the given canonical inputs: each in
/// read order, skipping any path already emitted.
pub open spec fn dedup_emitted(inputs: Seq<Seq<u8>>) -> Seq<Seq<u8>>
    decreases inputs.len(),
{
    if inputs.len() == 0 {
        Seq::empty()
    } else {
        let rest = dedup_emitted(inputs.drop_last());
        if rest.contains(inputs.last()) {
            rest
        } else {
            rest.push(inputs.last())
        }
    }
}

/// No canonical path is emitted more than once, however often it appears in
/// the input.
pub proof fn lemma_dedup_emits_once(inputs: Seq<Seq<u8>>)
    ensures
        forall|i: int, j: int|
            0 <= i < j < dedup_emitted(inputs).len() ==> dedup_emitted(inputs)[i]
                != dedup_emitted(inputs)[j],
    decreases inputs.len(),
{
    if inputs.len() > 0 {
        lemma_dedup_emits_once(inputs.drop_last());
        let rest = dedup_emitted(inputs.drop_last());
        let all = dedup_emitted(inputs);
        if !rest.contains(inputs.last()) {
            assert forall|i: int, j: int| 0 <= i < j < all.len() implies all[i] != all[j] by {
                if j < all.len() - 1 {
                    assert(rest[i] != rest[j]);
                } else {
                    assert(all[j] == inputs.last());
                    assert(rest[i] == all[i]);
                }
            }
        }
    }
}

/// A path is emitted exactly when it occurs somewhere in the input.
pub proof fn lemma_dedup_same_members(inputs: Seq<Seq<u8>>, p: Seq<u8>)
    ensures
        dedup_emitted(inputs).contains(p) == inputs.contains(p),
    decreases inputs.len(),
{
    if inputs.len() > 0 {
        lemma_dedup_same_members(inputs.drop_last(), p);
        let rest = dedup_emitted(inputs.drop_last());
        let all = dedup_emitted(inputs);
        if inputs.contains(p) {
            if p == inputs.last() {
                if rest.contains(p) {
                } else {
                    assert(all.last() == p);
                }
            } else {
                let w = choose|w: int| 0 <= w < inputs.len() && inputs[w] == p;
                assert(inputs.drop_last()[w] == p);
                assert(inputs.drop_last().contains(p));
                let v = choose|v: int| 0 <= v < rest.len() && rest[v] == p;
                assert(all[v] == p);
            }
        } else {
            assert(!inputs.drop_last().contains(p)) by {
                if inputs.drop_last().contains(p) {
                    let w = choose|w: int| 0 <= w < inputs.drop_last().len()
                        && inputs.drop_last()[w] == p;
                    assert(inputs[w] == p);
                }
            }
            assert(!all.contains(p)) by {
                if all.contains(p) {
                    let v = choose|v: int| 0 <= v < all.len() && all[v] == p;
                    if v < rest.len() {
                        assert(rest[v] == p);
                    } else {
                        assert(inputs.last() == p);
                    }
                }
            }
        }
    }
}

/// The set of canonical paths already emitted in this run, in emission order.
pub struct SeenPaths {
    seen: Vec<Vec<u8>>,
}

impl SeenPaths {
    /// The paths emitted so far, in order.
    pub closed spec fn view(&self) -> Seq<Seq<u8>> {
        self.seen.deep_view()
    }

    /// A run that has emitted nothing yet.
    pub fn new() -> (s: SeenPaths)
        ensures
            s@ =~= Seq::<Seq<u8>>::empty(),
    {
        SeenPaths { seen: Vec::new() }
    }

    /// Record one canonical path. Fresh (to be emitted) exactly when it has
    /// not been emitted before; the emission order is extended only then.
    pub fn insert(&mut self, path: &Vec<u8>) -> (fresh: bool)
        ensures
            fresh == !old(self)@.contains(path@),
            final(self)@ == if fresh {
                old(self)@.push(path@)
            } else {
                old(self)@
            },
    {
        let mut k: usize = 0;
        while k < self.seen.len()
            invariant
                k <= self.seen@.len(),
                self@ == self.seen.deep_view(),
                forall|t: int| 0 <= t < k ==> (#[trigger] self.seen@[t])@ != path@,
            decreases self.seen@.len() - k,
        {
            if bytes_eq(&self.seen[k], path) {
                proof {
                    assert(self.seen.deep_view()[k as int] =~= self.seen@[k as int]@);
                }
                return false;
            }
            k = k + 1;
        }
        proof {
            assert(!self.seen.deep_view().contains(path@)) by {
                if self.seen.deep_view().contains(path@) {
                    let w = choose|w: int| 0 <= w < self.seen.deep_view().len()
                        && self.seen.deep_view()[w] == path@;
                    assert(self.seen@[w]@ =~= self.seen.deep_view()[w]);
                }
            }
        }
        let mut copy: Vec<u8> = Vec::new();
        let mut c: usize = 0;
        while c < path.len()
            invariant
                c <= path@.len(),
                copy@ =~= path@.subrange(0, c as int),
            decreases path@.len() - c,
        {
            copy.push(path[c]);
            c = c + 1;
        }
        proof {
            assert(copy@ =~= path@);
        }
        self.seen.push(copy);
        proof {
            let dv = self.seen.deep_view();
            let target = old(self)@.push(path@);
            assert forall|t: int| 0 <= t < dv.len() implies dv[t] == target[t] by {
                assert(dv[t] == self.seen@[t].deep_view());
                if t < old(self).seen@.len() {
                    assert(self.seen@[t] == old(self).seen@[t]);
                    assert(old(self)@[t] == old(self).seen@[t].deep_view());
                } else {
                    assert(self.seen@[t]@ =~= path@);
                    assert(self.seen@[t].deep_view() =~= self.seen@[t]@);
                }
            }
            assert(dv =~= target);
        }
        true
    }

    /// Decide one streaming record: a record whose canonicalization failed is
    /// silently dropped (not an error), a canonical path already emitted in
    /// this run is skipped, and a fresh canonical path is emitted as a
    /// whole-file target.
    pub fn accept_record(&mut self, canonical: Option<Vec<u8>>) -> (emit: Option<Payload>)
        ensures
            match canonical {
                Option::None => emit is None && final(self)@ == old(self)@,
                Option::Some(p) => {
                    if old(self)@.contains(p@) {
                        emit is None && final(self)@ == old(self)@
                    } else {
                        emit matches Some(Payload::Entire(q)) && q@ == p@ && final(self)@ == old(
                            self,
                        )@.push(p@)
                    }
                },
            },
    {
        match canonical {
            Option::None => None,
            Option::Some(p) => {
                if self.insert(&p) {
                    Some(Payload::Entire(p))
                } else {
                    None
                }
            },
        }
    }
}

/// Emit the canonical inputs in order with duplicates skipped: the streaming
/// loop's effect on a whole input sequence.
pub fn dedup_paths(inputs: &Vec<Vec<u8>>) -> (out: Vec<Vec<u8>>)
    ensures
        out.deep_view() == dedup_emitted(inputs.deep_view()),
{
    let mut seen = SeenPaths::new();
    let mut out: Vec<Vec<u8>> = Vec::new();
    let mut i: usize = 0;
    proof {
        assert(inputs.deep_view().subrange(0, 0) =~= Seq::<Seq<u8>>::empty());
    }
    while i < inputs.len()
        invariant
            i <= inputs@.len(),
            inputs.deep_view().len() == inputs@.len(),
            seen@ == dedup_emitted(inputs.deep_view().subrange(0, i as int)),
            out.deep_view() == seen@,
        decreases inputs@.len() - i,
    {
        let ghost pre = inputs.deep_view().subrange(0, i as int);
        proof {
            assert(inputs.deep_view().subrange(0, i + 1).drop_last() =~= pre);
            assert(inputs.deep_view()[i as int] =~= inputs@[i as int]@);
        }
        let fresh = seen.insert(&inputs[i]);
        if fresh {
            let mut copy: Vec<u8> = Vec::new();
            let mut c: usize = 0;
            while c < inputs[i].len()
                invariant
                    i < inputs@.len(),
                    c <= inputs@[i as int]@.len(),
                    copy@ =~= inputs@[i as int]@.subrange(0, c as int),
                decreases inputs@[i as int]@.len() - c,
            {
                copy.push(inputs[i][c]);
                c = c + 1;
            }
            proof {
                assert(copy@ =~= inputs@[i as int]@);
            }
            out.push(copy);
            proof {
                assert(out.deep_view() =~= seen@);
            }
        }
        i = i + 1;
    }
    proof {
        assert(inputs.deep_view().subrange(0, inputs@.len() as int) =~= inputs.deep_view());
    }
    out
}

/// The validation failure reported when nothing is piped into the run.
pub open spec fn nil_stdin_msg() -> Seq<u8> {
    seq![78u8, 105u8, 108u8, 32u8, 115u8, 116u8, 100u8, 105u8, 110u8]
}

/// Relies on atty::is for the standard-input stream; the answer depends on
/// how the process was started, so nothing is promised of it.
#[verifier::external_body]
fn stdin_is_interactive() -> bool {
    atty::is(atty::Stream::Stdin)
}

/// Decide how the streaming mode starts: reading from an interactive
/// terminal (no data piped) is an immediate validation failure before any
/// read; otherwise the record delimiter is NUL or newline as configured.
pub fn stdin_plan(use_nul: bool) -> (r: Result<u8, Fail>)
    ensures
        match r {
            Ok(delim) => delim == if use_nul {
                0u8
            } else {
                10u8
            },
            Err(f) => f matches Fail::ArgumentError(m) && m@ == nil_stdin_msg(),
        },
{
    if stdin_is_interactive() {
        Err(Fail::ArgumentError(nil_stdin_exec()))
    } else if use_nul {
        Ok(0)
    } else {
        Ok(10)
    }
}

/// The bytes of the nothing-piped diagnostic, for callers that compare.
fn nil_stdin_exec() -> (v: Vec<u8>)
    ensures
        v@ =~= nil_stdin_msg(),
{
    let mut v: Vec<u8> = Vec::new();
    v.push(78);
    v.push(105);
    v.push(108);
    v.push(32);
    v.push(115);
    v.push(116);
    v.push(100);
    v.push(105);
    v.push(110);
    v
}

} // verus!
