//! The checkpoint file as a whole: a run of well-formed lines, possibly followed by
//! what an interrupted write left behind. Reading it recovers the entries of the
//! well-formed prefix and the offset at which writing resumes.

use crate::cache::Cache;
use crate::encoding::NEWLINE;
use crate::record::{parse_line, parse_record_text, CacheEntry};
use vstd::prelude::*;
use vstd::slice::slice_subrange;

verus! {

/// What a checkpoint file yields: the entries of its well-formed lines, in file
/// order, and the length in bytes of those lines.
pub struct Recovered {
    pub entries: Seq<(Seq<char>, u64)>,
    pub valid_len: nat,
}

/// The first `n` bytes are a line: they end in the first line feed there is.
pub open spec fn ends_first_line(bytes: Seq<u8>, n: int) -> bool {
    &&& 0 < n <= bytes.len()
    &&& bytes[n - 1] == NEWLINE
    &&& forall|j: int| 0 <= j < n - 1 ==> bytes[j] != NEWLINE
}

/// The length of the first line, its line feed included; zero where `bytes` holds no
/// line feed.
pub open spec fn first_line_len(bytes: Seq<u8>) -> int {
    if exists|n: int| ends_first_line(bytes, n) {
        choose|n: int| ends_first_line(bytes, n)
    } else {
        0
    }
}

pub open spec fn nothing() -> Recovered {
    Recovered { entries: Seq::empty(), valid_len: 0 }
}

/// First `first`, then `rest`.
pub open spec fn joined(first: Recovered, rest: Recovered) -> Recovered {
    Recovered {
        entries: first.entries + rest.entries,
        valid_len: first.valid_len + rest.valid_len,
    }
}

/// The longest run of well-formed lines at the start of `bytes`. It ends before the
/// first line that lacks its line feed, is not UTF-8, does not split into two fields,
/// or whose second field is no number.
pub open spec fn recover(bytes: Seq<u8>) -> Recovered
    decreases bytes.len(),
{
    let n = first_line_len(bytes);
    if 0 < n <= bytes.len() {
        match parse_line(bytes.subrange(0, n - 1)) {
            Some(entry) => joined(
                Recovered { entries: seq![entry], valid_len: n as nat },
                recover(bytes.skip(n)),
            ),
            None => nothing(),
        }
    } else {
        nothing()
    }
}

/// The lookup table that a sequence of entries amounts to: for a path that occurs
/// more than once, the last entry counts.
pub open spec fn entries_map(entries: Seq<(Seq<char>, u64)>) -> Map<Seq<char>, u64>
    decreases entries.len(),
{
    if entries.len() == 0 {
        Map::empty()
    } else {
        entries_map(entries.drop_last()).insert(entries.last().0, entries.last().1)
    }
}

/// There is one first line at most.
pub proof fn lemma_first_line_len(bytes: Seq<u8>, n: int)
    requires
        ends_first_line(bytes, n),
    ensures
        first_line_len(bytes) == n,
{
    let m = choose|m: int| ends_first_line(bytes, m);
    if m < n {
        assert(bytes[m - 1] == NEWLINE);
    } else if n < m {
        assert(bytes[n - 1] == NEWLINE);
    }
}

/// Without a line feed there is no line.
pub proof fn lemma_no_first_line(bytes: Seq<u8>)
    requires
        forall|j: int| 0 <= j < bytes.len() ==> bytes[j] != NEWLINE,
    ensures
        first_line_len(bytes) == 0,
        recover(bytes) == nothing(),
{
    assert forall|n: int| !ends_first_line(bytes, n) by {
        if 0 < n <= bytes.len() {
            assert(bytes[n - 1] != NEWLINE);
        }
    }
}

/// What reading a checkpoint file yields.
pub struct ReadResult {
    /// The recovered entries.
    pub cache: Cache,
    /// The offset just behind the last well-formed line: the place to write next.
    pub valid_len: usize,
}

/// Reads one line, given without its line feed.
pub fn read_line(line: &[u8]) -> (r: Option<CacheEntry>)
    ensures
        match r {
            Some(entry) => parse_line(line@) == Some(entry@),
            None => parse_line(line@) is None,
        },
{
    match core::str::from_utf8(line) {
        Ok(text) => parse_record_text(text),
        Err(_) => None,
    }
}

/// Reads a checkpoint file from its first byte. Scanning stops, without an error, at
/// the first line that is not well-formed; what follows `valid_len` is to be
/// overwritten.
pub fn read_result(bytes: &[u8]) -> (r: ReadResult)
    ensures
        r.cache@ == entries_map(recover(bytes@).entries),
        r.valid_len == recover(bytes@).valid_len,
{
    let mut cache = Cache::new();
    let mut pos: usize = 0;
    let ghost mut done: Seq<(Seq<char>, u64)> = Seq::empty();
    proof {
        assert(bytes@.skip(0) =~= bytes@);
        assert(done + recover(bytes@).entries =~= recover(bytes@).entries);
    }
    loop
        invariant
            pos <= bytes@.len(),
            cache@ == entries_map(done),
            recover(bytes@) == joined(
                Recovered { entries: done, valid_len: pos as nat },
                recover(bytes@.skip(pos as int)),
            ),
        ensures
            cache@ == entries_map(recover(bytes@).entries),
            pos == recover(bytes@).valid_len,
        decreases bytes@.len() - pos,
    {
        let ghost rest = bytes@.skip(pos as int);
        let mut end: usize = pos;
        while end < bytes.len() && bytes[end] != NEWLINE
            invariant
                pos <= end <= bytes@.len(),
                forall|j: int| pos <= j < end ==> bytes@[j] != NEWLINE,
            decreases bytes@.len() - end,
        {
            end += 1;
        }
        if end == bytes.len() {
            proof {
                lemma_no_first_line(rest);
                assert(done + nothing().entries =~= done);
            }
            break ;
        }
        proof {
            assert(ends_first_line(rest, end + 1 - pos));
            lemma_first_line_len(rest, end + 1 - pos);
            assert(rest.subrange(0, end - pos) =~= bytes@.subrange(pos as int, end as int));
            assert(rest.skip(end + 1 - pos) =~= bytes@.skip(end + 1));
        }
        match read_line(slice_subrange(bytes, pos, end)) {
            None => {
                proof {
                    assert(done + nothing().entries =~= done);
                }
                break ;
            },
            Some(entry) => {
                proof {
                    let next = recover(bytes@.skip(end + 1));
                    assert(done + (seq![entry@] + next.entries) =~= done.push(entry@)
                        + next.entries);
                    assert(done.push(entry@).drop_last() =~= done);
                    done = done.push(entry@);
                }
                cache.insert(entry.path, entry.hash);
                pos = end + 1;
            },
        }
    }
    ReadResult { cache, valid_len: pos }
}

} // verus!
