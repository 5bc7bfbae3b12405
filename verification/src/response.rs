//! The response writer's format: a status line, the length of the body in
//! decimal, a blank line, and the body.

use crate::request::{CR, LF};
use vstd::prelude::*;
use vstd::string::*;
use vstd::utf8::*;

verus! {

/// The byte of the digit zero.
pub const DIGIT_ZERO: u8 = 48;

/// A number in decimal, most significant digit first, without leading zeros.
pub open spec fn decimal_digits(n: nat) -> Seq<u8>
    decreases n,
{
    if n < 10 {
        seq![(DIGIT_ZERO + n) as u8]
    } else {
        decimal_digits(n / 10).push((DIGIT_ZERO + n % 10) as u8)
    }
}

/// The number that a sequence of decimal digits stands for.
pub open spec fn decimal_value(digits: Seq<u8>) -> nat
    decreases digits.len(),
{
    if digits.len() == 0 {
        0
    } else {
        decimal_value(digits.drop_last()) * 10 + (digits.last() - DIGIT_ZERO) as nat
    }
}

/// What stands between the status line and the length of the body.
pub open spec fn length_header() -> Seq<u8> {
    "\r\nContent-Length: ".spec_bytes()
}

/// The blank line that ends the head of a response.
pub open spec fn head_end() -> Seq<u8> {
    "\r\n\r\n".spec_bytes()
}

/// The head of a response for a body of `length` bytes.
pub open spec fn response_head(status_line: Seq<u8>, length: nat) -> Seq<u8> {
    status_line + length_header() + decimal_digits(length) + head_end()
}

/// A whole response: the head for the body's length, then the body.
pub open spec fn response_bytes(status_line: Seq<u8>, content: Seq<u8>) -> Seq<u8> {
    response_head(status_line, content.len()) + content
}

/// Whether a blank line, a line break directly after a line break, starts at
/// position `i`.
pub open spec fn blank_line_at(bytes: Seq<u8>, i: int) -> bool {
    &&& 0 <= i
    &&& i + 4 <= bytes.len()
    &&& bytes[i] == CR
    &&& bytes[i + 1] == LF
    &&& bytes[i + 2] == CR
    &&& bytes[i + 3] == LF
}

/// Whether a sequence of bytes holds neither a carriage return nor a line feed.
pub open spec fn is_single_line(bytes: Seq<u8>) -> bool {
    forall|i: int| 0 <= i < bytes.len() ==> bytes[i] != CR && bytes[i] != LF
}

/// A number in decimal has at least one digit, and only digits.
pub proof fn lemma_decimal_digits_are_digits(n: nat)
    ensures
        decimal_digits(n).len() >= 1,
        forall|i: int|
            0 <= i < decimal_digits(n).len() ==> DIGIT_ZERO <= #[trigger] decimal_digits(n)[i]
                <= DIGIT_ZERO + 9,
    decreases n,
{
    if n >= 10 {
        lemma_decimal_digits_are_digits(n / 10);
    }
}

/// Reading back the decimal digits of a number gives that number.
pub proof fn lemma_decimal_round_trip(n: nat)
    ensures
        decimal_value(decimal_digits(n)) == n,
    decreases n,
{
    reveal_with_fuel(decimal_value, 2);
    if n >= 10 {
        lemma_decimal_round_trip(n / 10);
        let head = decimal_digits(n / 10);
        let last = (DIGIT_ZERO + n % 10) as u8;
        assert(head.push(last).drop_last() =~= head);
    } else {
        assert(decimal_digits(n).drop_last() =~= Seq::<u8>::empty());
    }
}

/// The bytes of the two fixed parts of the head.
pub proof fn lemma_head_literals()
    ensures
        length_header() == seq![
            13u8,
            10u8,
            67u8,
            111u8,
            110u8,
            116u8,
            101u8,
            110u8,
            116u8,
            45u8,
            76u8,
            101u8,
            110u8,
            103u8,
            116u8,
            104u8,
            58u8,
            32u8,
        ],
        head_end() == seq![13u8, 10u8, 13u8, 10u8],
{
    reveal_strlit("\r\nContent-Length: ");
    reveal_strlit("\r\n\r\n");
    let header = "\r\nContent-Length: "@;
    let end = "\r\n\r\n"@;
    assert(is_ascii_chars(header));
    assert(is_ascii_chars(end));
    is_ascii_chars_encode_utf8(header);
    is_ascii_chars_encode_utf8(end);
    assert(length_header() =~= seq![
        13u8,
        10u8,
        67u8,
        111u8,
        110u8,
        116u8,
        101u8,
        110u8,
        116u8,
        45u8,
        76u8,
        101u8,
        110u8,
        103u8,
        116u8,
        104u8,
        58u8,
        32u8,
    ]);
    assert(head_end() =~= seq![13u8, 10u8, 13u8, 10u8]);
}

/// How a response is framed. The status line comes first, the length that the
/// head declares is the number of bytes of the body, and the body is all that
/// follows the blank line. Where the status line holds no line break, no blank
/// line starts before the one that ends the head, so the head holds exactly one.
pub proof fn lemma_response_framing(status_line: Seq<u8>, content: Seq<u8>)
    ensures
        ({
            let response = response_bytes(status_line, content);
            let start: int = status_line.len() as int + 18;
            let end: int = start + decimal_digits(content.len()).len();
            &&& response.len() == end + 4 + content.len()
            &&& response.subrange(0, status_line.len() as int) == status_line
            &&& response.subrange(status_line.len() as int, start) == length_header()
            &&& response.subrange(start, end) == decimal_digits(content.len())
            &&& decimal_value(response.subrange(start, end)) == content.len()
            &&& blank_line_at(response, end)
            &&& response.skip(end + 4) == content
            &&& is_single_line(status_line) ==> forall|i: int|
                0 <= i < end ==> !blank_line_at(response, i)
        }),
{
    let response = response_bytes(status_line, content);
    let digits = decimal_digits(content.len());
    let status_len = status_line.len() as int;
    let start: int = status_len + 18;
    let end: int = start + digits.len();
    lemma_head_literals();
    lemma_decimal_digits_are_digits(content.len());
    lemma_decimal_round_trip(content.len());
    assert(response.len() == end + 4 + content.len());
    assert(response.subrange(0, status_len) =~= status_line);
    assert(response.subrange(status_len, start) =~= length_header());
    assert(response.subrange(start, end) =~= digits);
    assert(response.skip(end + 4) =~= content);
    assert(response.subrange(end, end + 4) =~= head_end());
    assert(response[end] == head_end()[0]);
    assert(response[end + 1] == head_end()[1]);
    assert(response[end + 2] == head_end()[2]);
    assert(response[end + 3] == head_end()[3]);
    if is_single_line(status_line) {
        assert forall|i: int| 0 <= i < end implies !blank_line_at(response, i) by {
            if i < status_len {
                assert(response[i] == status_line[i]);
            } else if i < start {
                assert(response[i] == length_header()[i - status_len]);
                if i == status_len {
                    assert(response[i + 2] == length_header()[2]);
                }
            } else {
                assert(response[i] == digits[i - start]);
            }
        }
    }
}

/// Appends a number in decimal.
fn push_decimal(out: &mut Vec<u8>, n: usize)
    ensures
        final(out)@ == old(out)@ + decimal_digits(n as nat),
    decreases n,
{
    if n >= 10 {
        push_decimal(out, n / 10);
    }
    let digit: u8 = DIGIT_ZERO + (n % 10) as u8;
    out.push(digit);
    proof {
        if n >= 10 {
            assert(final(out)@ =~= old(out)@ + decimal_digits((n / 10) as nat).push(digit));
        } else {
            assert(final(out)@ =~= old(out)@ + seq![digit]);
        }
    }
}

/// Appends a run of bytes.
fn push_bytes(out: &mut Vec<u8>, bytes: &[u8])
    ensures
        final(out)@ == old(out)@ + bytes@,
{
    out.extend_from_slice(bytes);
    assert(final(out)@ =~= old(out)@ + bytes@);
}

/// Formats the response for a status line and the bytes of a resource.
pub fn format_response(status_line: &str, content: &[u8]) -> (response: Vec<u8>)
    ensures
        response@ == response_bytes(status_line.spec_bytes(), content@),
{
    let mut response: Vec<u8> = Vec::new();
    push_bytes(&mut response, status_line.as_bytes());
    push_bytes(&mut response, "\r\nContent-Length: ".as_bytes());
    push_decimal(&mut response, content.len());
    push_bytes(&mut response, "\r\n\r\n".as_bytes());
    push_bytes(&mut response, content);
    assert(response@ =~= response_bytes(status_line.spec_bytes(), content@));
    response
}

} // verus!
