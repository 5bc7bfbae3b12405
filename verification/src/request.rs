//! The request reader: the grammar that turns the bytes received on a
//! connection into request lines.
//!
//! A line runs up to and including the first line feed, or to the end of the
//! input where no line feed follows. Its content is the line without that line
//! feed and without a carriage return directly before it. Reading stops at the
//! first line whose content is empty; a line whose content is not valid UTF-8 is
//! left out and reading goes on.

use vstd::prelude::*;
use vstd::slice::*;
use vstd::string::*;
use vstd::utf8::*;

verus! {

/// The line feed, which ends a line.
pub const LF: u8 = 10;

/// The carriage return, which is dropped where it stands before a line feed.
pub const CR: u8 = 13;

/// The lines of a request as sequences of characters.
pub open spec fn lines_view(lines: Seq<String>) -> Seq<Seq<char>> {
    Seq::new(lines.len(), |i: int| lines[i]@)
}

/// The number of bytes of the first line, its line feed included: the position
/// after the first line feed, or the whole length where there is none.
pub open spec fn first_line_len(bytes: Seq<u8>) -> int
    decreases bytes.len(),
{
    if bytes.len() == 0 {
        0
    } else if bytes[0] == LF {
        1
    } else {
        1 + first_line_len(bytes.skip(1))
    }
}

/// What a line holds once its terminator is taken off.
pub open spec fn line_content(line: Seq<u8>) -> Seq<u8> {
    if line.len() > 0 && line.last() == LF {
        let body = line.drop_last();
        if body.len() > 0 && body.last() == CR {
            body.drop_last()
        } else {
            body
        }
    } else {
        line
    }
}

/// The request lines that a sequence of received bytes holds.
pub open spec fn request_lines(bytes: Seq<u8>) -> Seq<Seq<char>>
    decreases bytes.len(),
    via request_lines_decreases
{
    if bytes.len() == 0 {
        Seq::empty()
    } else {
        let n = first_line_len(bytes);
        let content = line_content(bytes.take(n));
        if content.len() == 0 {
            Seq::empty()
        } else if valid_utf8(content) {
            seq![decode_utf8(content)] + request_lines(bytes.skip(n))
        } else {
            request_lines(bytes.skip(n))
        }
    }
}

#[via_fn]
proof fn request_lines_decreases(bytes: Seq<u8>) {
    if bytes.len() > 0 {
        lemma_first_line_len(bytes);
    }
}

/// Whether the bytes hold the blank line that ends a request.
pub open spec fn has_blank_line(bytes: Seq<u8>) -> bool
    decreases bytes.len(),
    via has_blank_line_decreases
{
    if bytes.len() == 0 {
        false
    } else {
        let n = first_line_len(bytes);
        line_content(bytes.take(n)).len() == 0 || has_blank_line(bytes.skip(n))
    }
}

#[via_fn]
proof fn has_blank_line_decreases(bytes: Seq<u8>) {
    if bytes.len() > 0 {
        lemma_first_line_len(bytes);
    }
}

/// The first line of a non-empty input is not empty, holds no line feed before
/// its last byte, and ends in a line feed or with the input.
pub proof fn lemma_first_line_len(bytes: Seq<u8>)
    requires
        bytes.len() > 0,
    ensures
        1 <= first_line_len(bytes) <= bytes.len(),
        forall|j: int| 0 <= j < first_line_len(bytes) - 1 ==> bytes[j] != LF,
        bytes[first_line_len(bytes) - 1] == LF || first_line_len(bytes) == bytes.len(),
    decreases bytes.len(),
{
    reveal_with_fuel(first_line_len, 2);
    if bytes[0] != LF && bytes.len() > 1 {
        let tail = bytes.skip(1);
        lemma_first_line_len(tail);
        assert forall|j: int| 0 <= j < first_line_len(bytes) - 1 implies bytes[j] != LF by {
            if j > 0 {
                assert(tail[j - 1] == bytes[j]);
            }
        }
        assert(tail[first_line_len(tail) - 1] == bytes[first_line_len(bytes) - 1]);
    } else if bytes[0] != LF {
        assert(bytes.skip(1).len() == 0);
    }
}

/// The first line's length is the only number that the three properties of
/// `lemma_first_line_len` hold of.
pub proof fn lemma_first_line_len_is(bytes: Seq<u8>, n: int)
    requires
        1 <= n <= bytes.len(),
        forall|j: int| 0 <= j < n - 1 ==> bytes[j] != LF,
        bytes[n - 1] == LF || n == bytes.len(),
    ensures
        first_line_len(bytes) == n,
    decreases n,
{
    reveal_with_fuel(first_line_len, 2);
    if n > 1 {
        let tail = bytes.skip(1);
        assert forall|j: int| 0 <= j < n - 2 implies tail[j] != LF by {
            assert(tail[j] == bytes[j + 1]);
        }
        assert(tail[n - 2] == bytes[n - 1]);
        lemma_first_line_len_is(tail, n - 1);
    } else if bytes[0] != LF {
        assert(bytes.skip(1).len() == 0);
    }
}

/// Nothing received gives no request lines.
pub proof fn lemma_no_bytes_no_lines()
    ensures
        request_lines(Seq::<u8>::empty()) == Seq::<Seq<char>>::empty(),
        !has_blank_line(Seq::<u8>::empty()),
{
}

/// Once the blank line has been received the request is settled: whatever
/// bytes follow, the request lines stay the same and the request stays whole.
pub proof fn lemma_complete_request_is_stable(received: Seq<u8>, more: Seq<u8>)
    requires
        has_blank_line(received),
    ensures
        request_lines(received + more) == request_lines(received),
        has_blank_line(received + more),
    decreases received.len(),
{
    let all = received + more;
    let n = first_line_len(received);
    lemma_first_line_len(received);
    if received[n - 1] != LF {
        assert(received.take(n) =~= received);
        assert(received.skip(n) =~= Seq::<u8>::empty());
        lemma_no_bytes_no_lines();
        assert(false);
    }
    assert forall|j: int| 0 <= j < n - 1 implies all[j] != LF by {
        assert(all[j] == received[j]);
    }
    assert(all[n - 1] == received[n - 1]);
    lemma_first_line_len_is(all, n);
    assert(all.take(n) =~= received.take(n));
    assert(all.skip(n) =~= received.skip(n) + more);
    if line_content(received.take(n)).len() != 0 {
        lemma_complete_request_is_stable(received.skip(n), more);
    }
}

/// A request line is never empty: reading stops at the first empty line.
pub proof fn lemma_request_lines_are_not_empty(bytes: Seq<u8>, i: int)
    requires
        0 <= i < request_lines(bytes).len(),
    ensures
        request_lines(bytes)[i].len() > 0,
    decreases bytes.len(),
{
    let n = first_line_len(bytes);
    lemma_first_line_len(bytes);
    let content = line_content(bytes.take(n));
    if valid_utf8(content) {
        if i == 0 {
            assert(decode_utf8(content).len() > 0);
        } else {
            assert(request_lines(bytes)[i] == request_lines(bytes.skip(n))[i - 1]);
            lemma_request_lines_are_not_empty(bytes.skip(n), i - 1);
        }
    } else {
        lemma_request_lines_are_not_empty(bytes.skip(n), i);
    }
}

/// Calls `std::str::from_utf8`, whose result Verus takes on trust. Its
/// documentation says that it fails exactly where the slice is not UTF-8, and
/// that otherwise it hands back the same bytes as a string slice. So the
/// result is some text if and only if the bytes are valid UTF-8, and the
/// encoding of that text is the bytes themselves.
#[verifier::external_body]
fn utf8_text<'a>(bytes: &'a [u8]) -> (text: Option<&'a str>)
    ensures
        text is Some <==> valid_utf8(bytes@),
        text is Some ==> text->0.spec_bytes() == bytes@,
{
    match std::str::from_utf8(bytes) {
        Ok(text) => Some(text),
        Err(_) => None,
    }
}

/// Finds the line that starts at `pos`. The first number is where its content
/// ends, the second where the next line starts.
fn scan_line(bytes: &[u8], pos: usize) -> (span: (usize, usize))
    requires
        pos < bytes@.len(),
    ensures
        pos <= span.0 <= span.1 <= bytes@.len(),
        span.1 - pos == first_line_len(bytes@.skip(pos as int)),
        bytes@.subrange(pos as int, span.0 as int) == line_content(
            bytes@.skip(pos as int).take(span.1 - pos),
        ),
{
    let ghost rest = bytes@.skip(pos as int);
    let mut end: usize = pos;
    while end < bytes.len() && bytes[end] != LF
        invariant
            pos <= end <= bytes@.len(),
            forall|j: int| pos <= j < end ==> bytes@[j] != LF,
        decreases bytes@.len() - end,
    {
        end += 1;
    }
    if end < bytes.len() {
        let next: usize = end + 1;
        let stop: usize = if end > pos && bytes[end - 1] == CR {
            end - 1
        } else {
            end
        };
        proof {
            let n = next - pos;
            assert forall|j: int| 0 <= j < n - 1 implies rest[j] != LF by {
                assert(rest[j] == bytes@[pos + j]);
            }
            assert(rest[n - 1] == bytes@[end as int]);
            lemma_first_line_len_is(rest, n);
            let line = rest.take(n);
            assert(line.last() == LF);
            assert(line.drop_last() =~= bytes@.subrange(pos as int, end as int));
            if end > pos && bytes@[end - 1] == CR {
                assert(line.drop_last().last() == CR);
                assert(line.drop_last().drop_last() =~= bytes@.subrange(pos as int, stop as int));
            }
        }
        (stop, next)
    } else {
        proof {
            let n = end - pos;
            assert forall|j: int| 0 <= j < n - 1 implies rest[j] != LF by {
                assert(rest[j] == bytes@[pos + j]);
            }
            lemma_first_line_len_is(rest, n);
            let line = rest.take(n);
            assert(line.last() == bytes@[end - 1]);
            assert(line =~= bytes@.subrange(pos as int, end as int));
        }
        (end, end)
    }
}

/// Reads the request lines out of the bytes received on a connection.
pub fn read_request(bytes: &[u8]) -> (lines: Vec<String>)
    ensures
        lines_view(lines@) == request_lines(bytes@),
{
    let mut lines: Vec<String> = Vec::new();
    let mut pos: usize = 0;
    assert(bytes@.skip(0) =~= bytes@);
    assert(lines_view(lines@) =~= Seq::empty());
    while pos < bytes.len()
        invariant
            pos <= bytes@.len(),
            request_lines(bytes@) == lines_view(lines@) + request_lines(
                bytes@.skip(pos as int),
            ),
        decreases bytes@.len() - pos,
    {
        let ghost rest = bytes@.skip(pos as int);
        let ghost before = lines_view(lines@);
        let (stop, next) = scan_line(bytes, pos);
        proof {
            lemma_first_line_len(rest);
            assert(rest.skip(next - pos) =~= bytes@.skip(next as int));
        }
        if stop == pos {
            assert(request_lines(rest) =~= Seq::empty());
            assert(before + Seq::<Seq<char>>::empty() =~= before);
            return lines;
        }
        let content = slice_subrange(bytes, pos, stop);
        match utf8_text(content) {
            Some(text) => {
                proof {
                    encode_utf8_decode_utf8(text@);
                }
                lines.push(text.to_owned());
                assert(lines_view(lines@) =~= before.push(text@));
                assert(before + (seq![text@] + request_lines(bytes@.skip(next as int)))
                    =~= before.push(text@) + request_lines(bytes@.skip(next as int)));
            },
            None => {},
        }
        pos = next;
    }
    assert(request_lines(bytes@.skip(pos as int)) =~= Seq::empty());
    assert(lines_view(lines@) + Seq::<Seq<char>>::empty()
        =~= lines_view(lines@));
    lines
}

/// Whether the bytes received so far hold a whole request, so that nothing more
/// needs to be read.
pub fn request_complete(bytes: &[u8]) -> (complete: bool)
    ensures
        complete == has_blank_line(bytes@),
{
    let mut pos: usize = 0;
    assert(bytes@.skip(0) =~= bytes@);
    while pos < bytes.len()
        invariant
            pos <= bytes@.len(),
            has_blank_line(bytes@) == has_blank_line(bytes@.skip(pos as int)),
        decreases bytes@.len() - pos,
    {
        let ghost rest = bytes@.skip(pos as int);
        let (stop, next) = scan_line(bytes, pos);
        proof {
            lemma_first_line_len(rest);
            assert(rest.skip(next - pos) =~= bytes@.skip(next as int));
        }
        if stop == pos {
            return true;
        }
        pos = next;
    }
    false
}

} // verus!
