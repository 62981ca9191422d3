//! What the command-line parser computes about the errors it reports.
use crate::ascii::{CR, LF};
use crate::parser::errors::{describe, ErrorKind};
use crate::text::owned;
use vstd::prelude::*;
use vstd::string::StringSliceAdditionalSpecFns;

verus! {

/// A byte that starts a UTF-8 character: any but a continuation byte.
pub open spec fn starts_char(b: u8) -> bool {
    !(0x80 <= b && b < 0xC0)
}

/// The number of characters in UTF-8 bytes `b`.
pub open spec fn char_count(b: Seq<u8>) -> int
    decreases b.len(),
{
    if b.len() == 0 {
        0
    } else {
        char_count(b.drop_last()) + if starts_char(b.last()) {
            1int
        } else {
            0
        }
    }
}

/// The first line feed at or after `p`, or the end of the source.
pub open spec fn line_feed_at_or_after(src: Seq<u8>, p: int) -> int
    decreases src.len() - p,
{
    if 0 <= p < src.len() && src[p] != LF {
        line_feed_at_or_after(src, p + 1)
    } else {
        p
    }
}

/// The end of the line that starts at `start` and runs to the line feed at `e` (or
/// the end of the source), without the `\r` of a `\r\n`.
pub open spec fn content_end(src: Seq<u8>, start: int, e: int) -> int {
    if e < src.len() && e > start && src[e - 1] == CR {
        e - 1
    } else {
        e
    }
}

/// The lines from the one at `start` that end, counting each line's characters and
/// one for its line end from `chars_before`, at or before character `pos`.
pub open spec fn lines_before(src: Seq<u8>, start: int, chars_before: int, pos: int) -> int
    decreases src.len() - start,
{
    if start < 0 || start >= src.len() {
        0
    } else {
        let e = line_feed_at_or_after(src, start);
        let ptr = chars_before + char_count(src.subrange(start, content_end(src, start, e))) + 1;
        if ptr > pos {
            0
        } else if e < start || e >= src.len() {
            1
        } else {
            1 + lines_before(src, e + 1, ptr, pos)
        }
    }
}

proof fn lemma_line_feed(src: Seq<u8>, p: int)
    requires
        0 <= p <= src.len(),
    ensures
        p <= line_feed_at_or_after(src, p) <= src.len(),
        line_feed_at_or_after(src, p) < src.len() ==> src[line_feed_at_or_after(src, p)] == LF,
    decreases src.len() - p,
{
    if p < src.len() && src[p] != LF {
        lemma_line_feed(src, p + 1);
    }
}

proof fn lemma_char_count(b: Seq<u8>)
    ensures
        0 <= char_count(b) <= b.len(),
    decreases b.len(),
{
    if b.len() > 0 {
        lemma_char_count(b.drop_last());
    }
}

/// The number of characters in `b` from `start` to `end`.
fn count_chars(b: &[u8], start: usize, end: usize) -> (r: usize)
    requires
        start <= end <= b@.len(),
    ensures
        r == char_count(b@.subrange(start as int, end as int)),
{
    let mut n: usize = 0;
    let mut k: usize = start;
    assert(b@.subrange(start as int, start as int) =~= Seq::<u8>::empty());
    while k < end
        invariant
            start <= k <= end <= b@.len(),
            n == char_count(b@.subrange(start as int, k as int)),
            n <= k - start,
        decreases end - k,
    {
        assert(b@.subrange(start as int, k + 1).drop_last() =~= b@.subrange(start as int, k as int));
        if !(0x80 <= b[k] && b[k] < 0xC0) {
            n += 1;
        }
        k += 1;
    }
    n
}

/// The index of the line that holds character `pos` of `source`, counting from 0,
/// where each line counts its characters and one for its line end.
pub fn get_line_num(source: &str, pos: usize) -> (r: usize)
    requires
        source.spec_bytes().len() < usize::MAX,
    ensures
        r == lines_before(source.spec_bytes(), 0, 0, pos as int),
{
    let bytes = source.as_bytes();
    let ghost src = bytes@;
    let len = bytes.len();
    let mut start: usize = 0;
    let mut ptr: usize = 0;
    let mut i: usize = 0;
    loop
        invariant
            src == bytes@,
            len == src.len(),
            len < usize::MAX,
            ptr <= start,
            start <= len + 1,
            i <= start,
            i + lines_before(src, start as int, ptr as int, pos as int) == lines_before(src, 0, 0, pos as int),
        ensures
            i == lines_before(src, 0, 0, pos as int),
        decreases len + 1 - start,
    {
        if start >= len {
            break;
        }
        proof {
            lemma_line_feed(src, start as int);
        }
        let mut e = start;
        while e < len && bytes[e] != LF
            invariant
                start <= e <= len,
                src == bytes@,
                len == src.len(),
                line_feed_at_or_after(src, e as int) == line_feed_at_or_after(src, start as int),
            decreases len - e,
        {
            e += 1;
        }
        let ce = if e < len && e > start && bytes[e - 1] == CR {
            e - 1
        } else {
            e
        };
        let lnlen = count_chars(bytes, start, ce);
        proof {
            lemma_char_count(src.subrange(start as int, ce as int));
        }
        let next = ptr + lnlen + 1;
        if next > pos {
            break;
        }
        ptr = next;
        i += 1;
        start = e + 1;
    }
    i
}

/// The code and the message that the command line reports for an error.
pub fn get_error_info(kind: &ErrorKind) -> (r: (String, String))
    ensures
        r.0@ == "E0000"@,
        r.1@ == describe(*kind),
{
    (owned("E0000"), kind.to_string())
}

/// Where an error's annotation lies in the text of its junk, which starts at
/// `slice.0`: from the error's start to its end or the junk's end, whichever comes
/// first, and one byte past it.
pub fn annotation_range(pos: (usize, usize), slice: (usize, usize)) -> (r: (usize, usize))
    requires
        slice.0 <= pos.0,
        slice.0 <= pos.1,
        slice.0 <= slice.1,
        pos.1 - slice.0 < usize::MAX,
        slice.1 - slice.0 < usize::MAX,
    ensures
        r.0 == pos.0 - slice.0,
        r.1 == (if pos.1 < slice.1 {
            pos.1
        } else {
            slice.1
        }) - slice.0 + 1,
{
    let end_pos = if pos.1 < slice.1 {
        pos.1
    } else {
        slice.1
    };
    (pos.0 - slice.0, end_pos - slice.0 + 1)
}

} // verus!
