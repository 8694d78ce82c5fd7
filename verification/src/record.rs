//! One line of the checkpoint file: `<path>\t<hash>\n`, the hash in decimal.

use crate::encoding::{lemma_encode_ascii, lemma_encode_concat, NEWLINE, TAB};
use crate::text::{
    chars_of, decimal_digits, digit_char, parse_decimal, parse_decimal_range, trim_range,
    trimmed,
};
use vstd::prelude::*;
use vstd::string::StrSliceExecFns;
use vstd::utf8::{decode_utf8, encode_utf8, valid_utf8};

verus! {

/// A path with the hash that was computed for it.
pub struct CacheEntry {
    pub path: String,
    pub hash: u64,
}

impl View for CacheEntry {
    type V = (Seq<char>, u64);

    open spec fn view(&self) -> (Seq<char>, u64) {
        (self.path@, self.hash)
    }
}

/// A path that holds a tab or a line feed cannot be written: the format has no way to
/// quote them.
pub open spec fn has_delimiter(path: Seq<char>) -> bool {
    exists|i: int| 0 <= i < path.len() && (#[trigger] path[i] == '\t' || path[i] == '\n')
}

/// The text of an entry's line, up to the line feed.
pub open spec fn record_text(path: Seq<char>, hash: u64) -> Seq<char> {
    path + seq!['\t'] + decimal_digits(hash as nat)
}

/// The bytes of an entry's line.
pub open spec fn entry_line(path: Seq<char>, hash: u64) -> Seq<u8> {
    encode_utf8(record_text(path, hash)).push(NEWLINE)
}

/// `text` holds exactly one tab, at `t`.
pub open spec fn sole_tab(text: Seq<char>, t: int) -> bool {
    &&& 0 <= t < text.len()
    &&& text[t] == '\t'
    &&& forall|j: int| 0 <= j < text.len() && j != t ==> text[j] != '\t'
}

/// The entry that the text of a line stands for. The text must split at tabs into
/// exactly two fields. The first is the path, as it stands; the second, trimmed, must
/// be a number.
pub open spec fn parse_record(text: Seq<char>) -> Option<(Seq<char>, u64)> {
    if exists|t: int| sole_tab(text, t) {
        let t = choose|t: int| sole_tab(text, t);
        match parse_decimal(trimmed(text.subrange(t + 1, text.len() as int))) {
            Some(hash) => Some((text.subrange(0, t), hash)),
            None => None,
        }
    } else {
        None
    }
}

/// The entry that the bytes of a line stand for, the line feed left off. Bytes that
/// are not UTF-8 stand for none.
pub open spec fn parse_line(line: Seq<u8>) -> Option<(Seq<char>, u64)> {
    if valid_utf8(line) {
        parse_record(decode_utf8(line))
    } else {
        None
    }
}

/// The error of `core::str::from_utf8`. Only that there was one is used.
#[verifier::external_type_specification]
#[verifier::external_body]
pub struct ExUtf8Error(core::str::Utf8Error);

/// `core::str::from_utf8` accepts exactly the byte sequences that are UTF-8, and
/// yields the text that they encode.
pub assume_specification<'a>[ core::str::from_utf8 ](v: &'a [u8]) -> (r: Result<
    &'a str,
    core::str::Utf8Error,
>)
    ensures
        r is Ok <==> valid_utf8(v@),
        r matches Ok(s) ==> s@ == decode_utf8(v@),
;

/// Reads the text of one line.
pub fn parse_record_text(text: &str) -> (r: Option<CacheEntry>)
    ensures
        match r {
            Some(entry) => parse_record(text@) == Some(entry@),
            None => parse_record(text@) is None,
        },
{
    let chars = chars_of(text);
    let n: usize = chars.len();
    let mut t: usize = 0;
    while t < n && chars[t] != '\t'
        invariant
            t <= n == chars@.len(),
            forall|j: int| 0 <= j < t ==> chars@[j] != '\t',
        decreases n - t,
    {
        t += 1;
    }
    if t == n {
        proof {
            assert forall|u: int| !sole_tab(text@, u) by {}
        }
        return None;
    }
    let mut k: usize = t + 1;
    while k < n && chars[k] != '\t'
        invariant
            t < k <= n == chars@.len(),
            forall|j: int| t < j < k ==> chars@[j] != '\t',
        decreases n - k,
    {
        k += 1;
    }
    if k < n {
        proof {
            assert forall|u: int| !sole_tab(text@, u) by {
                if u == t {
                    assert(text@[k as int] == '\t');
                } else {
                    assert(text@[t as int] == '\t');
                }
            }
        }
        return None;
    }
    proof {
        assert(sole_tab(text@, t as int));
        let u = choose|u: int| sole_tab(text@, u);
        assert(u == t);
    }
    let (c, d) = trim_range(chars.as_slice(), t + 1, n);
    match parse_decimal_range(chars.as_slice(), c, d) {
        None => None,
        Some(hash) => {
            let path = text.substring_char(0, t).to_owned();
            Some(CacheEntry { path, hash })
        },
    }
}

/// Appends the decimal notation of `n`.
fn push_decimal(out: &mut Vec<u8>, n: u64)
    ensures
        final(out)@ == old(out)@ + encode_utf8(decimal_digits(n as nat)),
    decreases n,
{
    if n >= 10 {
        push_decimal(out, n / 10);
    }
    let d: u8 = (n % 10) as u8;
    out.push(0x30 + d);
    proof {
        let c = digit_char((n % 10) as nat);
        assert(c as u32 == 0x30 + n % 10);
        lemma_encode_ascii(c);
        if n >= 10 {
            let high = decimal_digits((n / 10) as nat);
            lemma_encode_concat(high, seq![c]);
            assert(decimal_digits(n as nat) =~= high + seq![c]);
            assert(final(out)@ =~= old(out)@ + (encode_utf8(high) + seq![c as u8]));
        } else {
            assert(decimal_digits(n as nat) =~= seq![c]);
            assert(final(out)@ =~= old(out)@ + seq![c as u8]);
        }
    }
}

/// The line to write for an entry, or `None` for a path that cannot be written.
pub fn encode_entry(path: &str, hash: u64) -> (r: Option<Vec<u8>>)
    ensures
        r is None <==> has_delimiter(path@),
        r matches Some(line) ==> line@ == entry_line(path@, hash),
{
    for c in it: path.chars()
        invariant
            it.seq() == path@,
            forall|j: int| 0 <= j < it.index() ==> path@[j] != '\t' && path@[j] != '\n',
    {
        if c == '\t' || c == '\n' {
            proof {
                assert(path@[it.index() as int] == c);
            }
            return None;
        }
    }
    let mut out = path.as_bytes_vec();
    out.push(TAB);
    push_decimal(&mut out, hash);
    out.push(NEWLINE);
    proof {
        let digits = decimal_digits(hash as nat);
        lemma_encode_ascii('\t');
        lemma_encode_concat(path@, seq!['\t']);
        lemma_encode_concat(path@ + seq!['\t'], digits);
        assert(out@ =~= entry_line(path@, hash));
    }
    Some(out)
}

} // verus!
