//! What holds of the checkpoint protocol as a whole: a file that is read, and then
//! written to from the offset that reading gave.

use crate::checkpoint::{
    ends_first_line, entries_map, first_line_len, joined, lemma_first_line_len, nothing, recover,
    Recovered,
};
use crate::encoding::lemma_no_newline_byte;
use crate::record::{entry_line, has_delimiter, parse_line, parse_record, record_text, sole_tab};
use crate::text::{decimal_digits, is_digit, lemma_decimal_digits, lemma_parse_decimal_digits};
use crate::work::{lemma_pending, pending};
use vstd::prelude::*;
use vstd::utf8::{encode_utf8, encode_utf8_decode_utf8, encode_utf8_valid_utf8};

verus! {

/// A single recovered line.
pub open spec fn single(entry: (Seq<char>, u64), len: nat) -> Recovered {
    Recovered { entries: seq![entry], valid_len: len }
}

/// `recover` never reaches beyond the bytes it was given.
pub proof fn lemma_recover_bounds(bytes: Seq<u8>)
    ensures
        recover(bytes).valid_len <= bytes.len(),
    decreases bytes.len(),
{
    let n = first_line_len(bytes);
    if 0 < n <= bytes.len() {
        lemma_recover_bounds(bytes.skip(n));
    }
}

/// The well-formed prefix stands on its own: read alone, it yields what the whole
/// file yields, and all of it is well-formed.
pub proof fn law_prefix_alone(bytes: Seq<u8>)
    ensures
        recover(bytes).valid_len <= bytes.len(),
        recover(bytes.take(recover(bytes).valid_len as int)) == recover(bytes),
    decreases bytes.len(),
{
    let whole = recover(bytes);
    let v = whole.valid_len as int;
    lemma_recover_bounds(bytes);
    let n = first_line_len(bytes);
    if 0 < n <= bytes.len() && parse_line(bytes.subrange(0, n - 1)) is Some {
        let rest = recover(bytes.skip(n));
        law_prefix_alone(bytes.skip(n));
        let prefix = bytes.take(v);
        assert(ends_first_line(bytes, n));
        assert(ends_first_line(prefix, n));
        lemma_first_line_len(prefix, n);
        assert(prefix.subrange(0, n - 1) =~= bytes.subrange(0, n - 1));
        assert(prefix.skip(n) =~= bytes.skip(n).take(rest.valid_len as int));
    } else {
        assert(whole == nothing());
        assert forall|m: int| !ends_first_line(bytes.take(0), m) by {}
    }
}

/// Bytes that follow well-formed lines are read as if they stood alone.
pub proof fn law_recover_concat(lines: Seq<u8>, tail: Seq<u8>)
    requires
        recover(lines).valid_len == lines.len(),
    ensures
        recover(lines + tail) == joined(recover(lines), recover(tail)),
    decreases lines.len(),
{
    if lines.len() == 0 {
        assert(lines + tail =~= tail);
        assert forall|m: int| !ends_first_line(lines, m) by {}
        assert(recover(lines) == nothing());
        assert(nothing().entries + recover(tail).entries =~= recover(tail).entries);
    } else {
        let n = first_line_len(lines);
        assert(0 < n <= lines.len());
        let entry = parse_line(lines.subrange(0, n - 1))->0;
        let rest = recover(lines.skip(n));
        lemma_recover_bounds(lines.skip(n));
        law_recover_concat(lines.skip(n), tail);
        let both = lines + tail;
        assert(ends_first_line(lines, n));
        assert(ends_first_line(both, n));
        lemma_first_line_len(both, n);
        assert(both.subrange(0, n - 1) =~= lines.subrange(0, n - 1));
        assert(both.skip(n) =~= lines.skip(n) + tail);
        assert(seq![entry] + (rest.entries + recover(tail).entries) =~= (seq![entry]
            + rest.entries) + recover(tail).entries);
    }
}

/// What an interrupted write left behind is dropped. Where well-formed lines are
/// followed by bytes that begin with no well-formed line, because the line lacks its
/// line feed or is malformed, reading yields the entries of the well-formed lines
/// and no others, and the offset just behind them.
pub proof fn law_crash_tail_is_dropped(lines: Seq<u8>, tail: Seq<u8>)
    requires
        recover(lines).valid_len == lines.len(),
        first_line_len(tail) == 0 || parse_line(tail.subrange(0, first_line_len(tail) - 1))
            is None,
    ensures
        recover(lines + tail) == recover(lines),
        recover(lines + tail).valid_len == lines.len(),
{
    assert(recover(tail) == nothing());
    law_recover_concat(lines, tail);
    assert(recover(lines).entries + nothing().entries =~= recover(lines).entries);
}

/// A line that was written is read back: for a path without delimiters the line is
/// well-formed, it ends at its only line feed, its text splits at its only tab, and it
/// stands for the path as it was given, and the hash.
#[verifier::rlimit(40)]
pub proof fn law_round_trip(path: Seq<char>, hash: u64)
    requires
        !has_delimiter(path),
    ensures
        sole_tab(record_text(path, hash), path.len() as int),
        ends_first_line(entry_line(path, hash), entry_line(path, hash).len() as int),
        parse_record(record_text(path, hash)) == Some((path, hash)),
        recover(entry_line(path, hash)) == single((path, hash), entry_line(path, hash).len()),
{
    let digits = decimal_digits(hash as nat);
    let text = record_text(path, hash);
    let line = entry_line(path, hash);
    let t = path.len() as int;
    lemma_decimal_digits(hash as nat);
    lemma_parse_decimal_digits(hash);
    assert forall|j: int| 0 <= j < text.len() implies text[j] != '\n' && (j != t ==> text[j]
        != '\t') by {
        if j < t {
            assert(text[j] == path[j]);
        } else if j > t {
            assert(text[j] == digits[j - t - 1]);
            assert(is_digit(digits[j - t - 1]));
        }
    }
    assert(sole_tab(text, t));
    let u = choose|u: int| sole_tab(text, u);
    assert(u == t);
    assert(text.subrange(0, t) =~= path);
    assert(text.subrange(t + 1, text.len() as int) =~= digits);
    assert(parse_record(text) == Some((path, hash)));

    lemma_no_newline_byte(text);
    let n = line.len() as int;
    assert(ends_first_line(line, n));
    lemma_first_line_len(line, n);
    assert(line.subrange(0, n - 1) =~= encode_utf8(text));
    encode_utf8_valid_utf8(text);
    encode_utf8_decode_utf8(text);
    assert(parse_line(line.subrange(0, n - 1)) == Some((path, hash)));
    assert(line.skip(n) =~= Seq::<u8>::empty());
    assert forall|m: int| !ends_first_line(line.skip(n), m) by {}
    assert(recover(line.skip(n)) == nothing());
    assert(seq![(path, hash)] + nothing().entries =~= seq![(path, hash)]);
}

/// What a file holds once `data` has been written at the offset `at`. Writing
/// truncates nothing: the bytes behind the written range stay.
pub open spec fn written_at(content: Seq<u8>, at: int, data: Seq<u8>) -> Seq<u8> {
    if at + data.len() < content.len() {
        content.take(at) + data + content.skip(at + data.len())
    } else {
        content.take(at) + data
    }
}

/// The lines of a batch of entries, in the order in which they were written.
pub open spec fn batch_lines(batch: Seq<(Seq<char>, u64)>) -> Seq<u8>
    decreases batch.len(),
{
    if batch.len() == 0 {
        Seq::empty()
    } else {
        batch_lines(batch.drop_last()) + entry_line(batch.last().0, batch.last().1)
    }
}

/// No path of the batch holds a delimiter.
pub open spec fn writable(batch: Seq<(Seq<char>, u64)>) -> bool {
    forall|k: int| 0 <= k < batch.len() ==> !has_delimiter(#[trigger] batch[k].0)
}

/// The paths for which a file holds a hash.
pub open spec fn keys_of(content: Seq<u8>) -> Set<Seq<char>> {
    entries_map(recover(content).entries).dom()
}

/// Writing line after line leaves what writing all of them at once leaves.
pub proof fn law_line_by_line(content: Seq<u8>, at: int, first: Seq<u8>, second: Seq<u8>)
    requires
        0 <= at <= content.len(),
    ensures
        written_at(written_at(content, at, first), at + first.len(), second) == written_at(
            content,
            at,
            first + second,
        ),
{
    let once = written_at(content, at, first);
    assert(once.take(at + first.len()) =~= content.take(at) + first);
    if at + first.len() + second.len() < once.len() {
        assert(once.skip(at + first.len() + second.len()) =~= content.skip(
            at + first.len() + second.len(),
        ));
    }
    assert(written_at(once, at + first.len(), second) =~= written_at(
        content,
        at,
        first + second,
    ));
}

/// The lines of a batch are read back as the batch: one entry for each line, with
/// its path and its hash, in their order. None is lost, merged with another, or cut
/// short.
#[verifier::rlimit(40)]
pub proof fn law_batch_read_back(batch: Seq<(Seq<char>, u64)>)
    requires
        writable(batch),
    ensures
        recover(batch_lines(batch)) == (Recovered {
            entries: batch,
            valid_len: batch_lines(batch).len(),
        }),
    decreases batch.len(),
{
    if batch.len() == 0 {
        assert forall|m: int| !ends_first_line(batch_lines(batch), m) by {}
        assert(recover(batch_lines(batch)) == nothing());
        assert(batch =~= Seq::<(Seq<char>, u64)>::empty());
    } else {
        let earlier = batch.drop_last();
        let last = batch.last();
        let lines = batch_lines(earlier);
        let line = entry_line(last.0, last.1);
        assert(writable(earlier)) by {
            assert forall|k: int| 0 <= k < earlier.len() implies !has_delimiter(
                #[trigger] earlier[k].0,
            ) by {
                assert(earlier[k] == batch[k]);
            }
        }
        law_batch_read_back(earlier);
        assert(recover(line) == single(last, line.len())) by {
            assert(!has_delimiter(batch[batch.len() - 1].0));
            law_round_trip(last.0, last.1);
        }
        assert(recover(lines + line) == joined(recover(lines), recover(line))) by {
            law_recover_concat(lines, line);
        }
        assert(batch_lines(batch) == lines + line);
        assert(earlier + seq![last] =~= batch);
    }
}

/// Reading, then appending a batch at the offset that reading gave: the well-formed
/// prefix stays byte for byte, the lines of the batch follow it directly, and reading
/// the file again yields the entries recovered before, then the batch, then whatever
/// the bytes behind the batch happen to hold.
#[verifier::rlimit(40)]
pub proof fn law_batch_appended(content: Seq<u8>, batch: Seq<(Seq<char>, u64)>)
    requires
        writable(batch),
    ensures
        ({
            let before = recover(content);
            let lines = batch_lines(batch);
            let end = before.valid_len + lines.len();
            let after = written_at(content, before.valid_len as int, lines);
            &&& before.valid_len <= content.len()
            &&& end <= after.len()
            &&& after.take(before.valid_len as int) == content.take(before.valid_len as int)
            &&& after.subrange(before.valid_len as int, end as int) == lines
            &&& recover(after.take(end as int)) == joined(
                before,
                Recovered { entries: batch, valid_len: lines.len() },
            )
            &&& recover(after) == joined(
                recover(after.take(end as int)),
                recover(after.skip(end as int)),
            )
        }),
{
    let before = recover(content);
    let v = before.valid_len as int;
    let lines = batch_lines(batch);
    let end = v + lines.len();
    let after = written_at(content, v, lines);
    law_prefix_alone(content);
    law_batch_read_back(batch);
    law_recover_concat(content.take(v), lines);
    assert(after.take(v) =~= content.take(v));
    assert(after.subrange(v, end) =~= lines);
    assert(after.take(end) =~= content.take(v) + lines);
    law_recover_concat(after.take(end), after.skip(end));
    assert(after.take(end) + after.skip(end) =~= after);
}

/// Recovery after a crash is exact. Whatever follows the well-formed prefix, reading
/// yields the entries of that prefix and no others; an entry appended at the offset
/// that reading gave leaves the prefix byte for byte and stands directly behind it;
/// and the prefix with the new line is read back as the old entries and the new one.
pub proof fn law_append_after_recovery(content: Seq<u8>, path: Seq<char>, hash: u64)
    requires
        !has_delimiter(path),
    ensures
        ({
            let before = recover(content);
            let line = entry_line(path, hash);
            let end = before.valid_len + line.len();
            let after = written_at(content, before.valid_len as int, line);
            &&& recover(content.take(before.valid_len as int)) == before
            &&& after.take(before.valid_len as int) == content.take(before.valid_len as int)
            &&& after.subrange(before.valid_len as int, end as int) == line
            &&& recover(after.take(end as int)) == joined(before, single((path, hash), line.len()))
        }),
{
    let batch = seq![(path, hash)];
    assert(batch.drop_last() =~= Seq::<(Seq<char>, u64)>::empty());
    assert(batch_lines(batch.drop_last()) =~= Seq::<u8>::empty());
    assert(batch_lines(batch) =~= entry_line(path, hash));
    law_prefix_alone(content);
    law_batch_appended(content, batch);
}

/// A lookup table holds a path exactly if one of its entries is for that path.
pub proof fn lemma_entries_map_keys(entries: Seq<(Seq<char>, u64)>)
    ensures
        forall|path: Seq<char>|
            entries_map(entries).contains_key(path) <==> exists|k: int|
                0 <= k < entries.len() && (#[trigger] entries[k]).0 == path,
    decreases entries.len(),
{
    if entries.len() > 0 {
        let earlier = entries.drop_last();
        lemma_entries_map_keys(earlier);
        assert forall|path: Seq<char>|
            entries_map(entries).contains_key(path) <==> exists|k: int|
                0 <= k < entries.len() && (#[trigger] entries[k]).0 == path by {
            if entries_map(entries).contains_key(path) {
                if path == entries.last().0 {
                    assert(entries[entries.len() - 1].0 == path);
                } else {
                    assert(entries_map(earlier).contains_key(path));
                    let k = choose|k: int|
                        0 <= k < earlier.len() && (#[trigger] earlier[k]).0 == path;
                    assert(entries[k].0 == path);
                }
            }
            if exists|k: int| 0 <= k < entries.len() && (#[trigger] entries[k]).0 == path {
                let k = choose|k: int|
                    0 <= k < entries.len() && (#[trigger] entries[k]).0 == path;
                if k < earlier.len() {
                    assert(earlier[k].0 == path);
                    assert(entries_map(earlier).contains_key(path));
                }
            }
        }
    }
}

/// No two of the entries are for the same path.
pub open spec fn distinct_paths(entries: Seq<(Seq<char>, u64)>) -> bool {
    forall|i: int, j: int|
        0 <= i < j < entries.len() ==> (#[trigger] entries[i]).0 != (#[trigger] entries[j]).0
}

/// The lookup table of entries for distinct paths holds each entry with its hash,
/// and as many paths as there are entries.
#[verifier::rlimit(40)]
pub proof fn lemma_entries_map_exact(entries: Seq<(Seq<char>, u64)>)
    requires
        distinct_paths(entries),
    ensures
        forall|k: int|
            0 <= k < entries.len() ==> entries_map(entries).contains_key(
                (#[trigger] entries[k]).0,
            ) && entries_map(entries)[entries[k].0] == entries[k].1,
        entries_map(entries).dom().finite(),
        entries_map(entries).len() == entries.len(),
    decreases entries.len(),
{
    if entries.len() > 0 {
        let earlier = entries.drop_last();
        let last = entries.last();
        assert(distinct_paths(earlier)) by {
            assert forall|i: int, j: int| 0 <= i < j < earlier.len() implies (
            #[trigger] earlier[i]).0 != (#[trigger] earlier[j]).0 by {
                assert(entries[i].0 != entries[j].0);
            }
        }
        lemma_entries_map_exact(earlier);
        lemma_entries_map_keys(earlier);
        assert(!entries_map(earlier).contains_key(last.0)) by {
            if entries_map(earlier).contains_key(last.0) {
                let k = choose|k: int|
                    0 <= k < earlier.len() && (#[trigger] earlier[k]).0 == last.0;
                assert(entries[k].0 != entries[entries.len() - 1].0);
            }
        }
        assert forall|k: int| 0 <= k < entries.len() implies entries_map(entries).contains_key(
            (#[trigger] entries[k]).0,
        ) && entries_map(entries)[entries[k].0] == entries[k].1 by {
            if k < earlier.len() {
                assert(earlier[k] == entries[k]);
                assert(entries[k].0 != entries[entries.len() - 1].0);
            }
        }
    }
}

/// The lines of two batches, one after the other, are the lines of both as one.
pub proof fn lemma_batch_lines_concat(first: Seq<(Seq<char>, u64)>, second: Seq<(Seq<char>, u64)>)
    ensures
        batch_lines(first + second) == batch_lines(first) + batch_lines(second),
    decreases second.len(),
{
    if second.len() == 0 {
        assert(first + second =~= first);
        assert(batch_lines(first) + batch_lines(second) =~= batch_lines(first));
    } else {
        lemma_batch_lines_concat(first, second.drop_last());
        assert((first + second).drop_last() =~= first + second.drop_last());
        assert((first + second).last() == second.last());
        let line = entry_line(second.last().0, second.last().1);
        assert(batch_lines(first) + (batch_lines(second.drop_last()) + line) =~= (batch_lines(
            first,
        ) + batch_lines(second.drop_last())) + line);
    }
}

/// Recovery is exact. A file made of the lines of entries, written in any order, and
/// of a tail that begins with no well-formed line (an empty tail is one) is read as
/// exactly those entries, each with the path as it was written and its hash, and the
/// offset is just behind the last of the lines. Where the paths are distinct, the
/// lookup table holds each path with its hash and nothing else.
pub proof fn law_recovery_is_exact(batch: Seq<(Seq<char>, u64)>, tail: Seq<u8>)
    requires
        writable(batch),
        first_line_len(tail) == 0 || parse_line(tail.subrange(0, first_line_len(tail) - 1))
            is None,
    ensures
        recover(batch_lines(batch) + tail) == (Recovered {
            entries: batch,
            valid_len: batch_lines(batch).len(),
        }),
        distinct_paths(batch) ==> entries_map(batch).len() == batch.len(),
        distinct_paths(batch) ==> forall|k: int|
            0 <= k < batch.len() ==> entries_map(batch).contains_key((#[trigger] batch[k]).0)
                && entries_map(batch)[batch[k].0] == batch[k].1,
        forall|path: Seq<char>|
            entries_map(batch).contains_key(path) ==> exists|k: int|
                0 <= k < batch.len() && (#[trigger] batch[k]).0 == path,
{
    law_batch_read_back(batch);
    law_crash_tail_is_dropped(batch_lines(batch), tail);
    lemma_entries_map_keys(batch);
    if distinct_paths(batch) {
        lemma_entries_map_exact(batch);
    }
}

/// After a batch was appended, the file holds a hash for every path it held one for,
/// and for every path of the batch.
#[verifier::rlimit(40)]
pub proof fn lemma_keys_after_batch(content: Seq<u8>, batch: Seq<(Seq<char>, u64)>)
    requires
        writable(batch),
    ensures
        ({
            let after = written_at(
                content,
                recover(content).valid_len as int,
                batch_lines(batch),
            );
            &&& forall|path: Seq<char>|
                keys_of(content).contains(path) ==> keys_of(after).contains(path)
            &&& forall|k: int| 0 <= k < batch.len() ==> keys_of(after).contains(batch[k].0)
        }),
{
    let before = recover(content);
    let after = written_at(content, before.valid_len as int, batch_lines(batch));
    let end = (before.valid_len + batch_lines(batch).len()) as int;
    law_batch_appended(content, batch);
    let again = recover(after);
    let leftover = recover(after.skip(end));
    assert(again.entries =~= before.entries + batch + leftover.entries);
    lemma_entries_map_keys(before.entries);
    lemma_entries_map_keys(again.entries);
    assert forall|path: Seq<char>| keys_of(content).contains(path) implies keys_of(
        after,
    ).contains(path) by {
        let k = choose|k: int|
            0 <= k < before.entries.len() && (#[trigger] before.entries[k]).0 == path;
        assert(again.entries[k].0 == path);
    }
    assert forall|k: int| 0 <= k < batch.len() implies keys_of(after).contains(batch[k].0) by {
        assert(again.entries[before.entries.len() + k].0 == batch[k].0);
    }
}

/// What one run writes: `batch` holds a path exactly if the path is in the work set
/// of the run, `hashes` holds a hash for it, and it can be written. The order of the
/// batch is that in which the hashes were completed, and is not constrained.
pub open spec fn written_by_run(
    batch: Seq<(Seq<char>, u64)>,
    content: Seq<u8>,
    candidates: Seq<Seq<char>>,
    hashes: Map<Seq<char>, u64>,
) -> bool {
    forall|path: Seq<char>|
        (exists|k: int| 0 <= k < batch.len() && (#[trigger] batch[k]).0 == path) <==> (pending(
            candidates,
            keys_of(content),
        ).contains(path) && hashes.contains_key(path) && !has_delimiter(path))
}

/// A second run finds nothing to do. Let a run have written `batch`, in any order.
/// Then the work set of a run over the same candidates on the file so left holds no
/// path of the batch, so no path is hashed twice; and it holds no path that can be
/// hashed and written, so the second run writes nothing and the file, with the
/// entries it holds, stays as the first run left it.
#[verifier::rlimit(40)]
pub proof fn law_second_run_is_idle(
    content: Seq<u8>,
    candidates: Seq<Seq<char>>,
    hashes: Map<Seq<char>, u64>,
    batch: Seq<(Seq<char>, u64)>,
)
    requires
        written_by_run(batch, content, candidates, hashes),
    ensures
        ({
            let after = written_at(
                content,
                recover(content).valid_len as int,
                batch_lines(batch),
            );
            &&& forall|k: int|
                0 <= k < batch.len() ==> !pending(candidates, keys_of(after)).contains(
                    (#[trigger] batch[k]).0,
                )
            &&& forall|path: Seq<char>|
                keys_of(content).contains(path) ==> keys_of(after).contains(path)
            &&& written_by_run(Seq::empty(), after, candidates, hashes)
            &&& written_at(
                after,
                recover(after).valid_len as int,
                batch_lines(Seq::empty()),
            ) == after
        }),
{
    let before = recover(content);
    let after = written_at(content, before.valid_len as int, batch_lines(batch));
    assert(writable(batch)) by {
        assert forall|k: int| 0 <= k < batch.len() implies !has_delimiter(
            #[trigger] batch[k].0,
        ) by {
            let path = batch[k].0;
            assert(exists|j: int| 0 <= j < batch.len() && (#[trigger] batch[j]).0 == path);
        }
    }
    lemma_keys_after_batch(content, batch);
    lemma_recover_bounds(after);
    assert(written_at(after, recover(after).valid_len as int, batch_lines(Seq::empty()))
        =~= after);
    lemma_pending(candidates, keys_of(content));
    lemma_pending(candidates, keys_of(after));
    assert forall|path: Seq<char>|
        !(pending(candidates, keys_of(after)).contains(path) && hashes.contains_key(path)
            && !has_delimiter(path)) by {
        if pending(candidates, keys_of(after)).contains(path) && hashes.contains_key(path)
            && !has_delimiter(path) {
            assert(!keys_of(content).contains(path));
            assert(pending(candidates, keys_of(content)).contains(path));
            let k = choose|k: int| 0 <= k < batch.len() && (#[trigger] batch[k]).0 == path;
            assert(keys_of(after).contains(batch[k].0));
        }
    }
}

} // verus!
