//! The frames in which messages travel: a header with the length of the body, a blank line, and
//! the body.
use crate::text::{
    byte_len, chars_of, has_prefix, lemma_byte_len_is_encoded_length, starts_with, subvec,
};
use vstd::prelude::*;

verus! {

/// What a line of a header says.
#[derive(Debug, Clone, Copy, PartialEq, Eq, Structural)]
pub enum HeaderLine {
    /// The header ends here.
    End,
    /// The body has so many bytes.
    Length(usize),
    /// A length that is no number.
    Invalid,
    /// Anything else.
    Other,
}

/// What is to be done after a line of a header.
#[derive(Debug, Clone, Copy, PartialEq, Eq, Structural)]
pub enum HeaderStep {
    /// The header goes on; the length that it has given so far is kept.
    Continue(Option<usize>),
    /// A body of so many bytes follows.
    Body(usize),
    /// The header gave no length: there is no further message.
    Stop,
    /// The length is no number.
    Fail,
}

/// A text without the line ends at its end.
pub open spec fn without_line_end(line: Seq<char>) -> Seq<char>
    decreases line.len(),
{
    if line.len() > 0 && (line.last() == '\r' || line.last() == '\n') {
        without_line_end(line.drop_last())
    } else {
        line
    }
}

/// The character is a digit.
pub open spec fn is_digit(c: char) -> bool {
    0x30 <= c as u32 <= 0x39
}

/// The number that the digits write; `None` if there is none, or something other than a digit.
pub open spec fn number(digits: Seq<char>) -> Option<nat>
    decreases digits.len(),
{
    if digits.len() == 0 || !is_digit(digits.last()) {
        None
    } else if digits.len() == 1 {
        Some((digits.last() as u32 - 0x30) as nat)
    } else {
        match number(digits.drop_last()) {
            Some(n) => Some((10 * n + (digits.last() as u32 - 0x30)) as nat),
            None => None,
        }
    }
}

/// The length that a text writes: a number, which a plus sign may go before, that a `usize`
/// can hold.
pub open spec fn length_value(text: Seq<char>) -> Option<nat> {
    let digits = if text.len() > 0 && text[0] == '+' {
        text.skip(1)
    } else {
        text
    };
    match number(digits) {
        Some(n) => if n <= usize::MAX {
            Some(n)
        } else {
            None
        },
        None => None,
    }
}

/// What a line of a header says.
pub open spec fn header_of(line: Seq<char>) -> HeaderLine {
    let content = without_line_end(line);
    if content.len() == 0 {
        HeaderLine::End
    } else if starts_with(content, "Content-Length: "@) {
        match length_value(content.skip("Content-Length: "@.len() as int)) {
            Some(n) => HeaderLine::Length(n as usize),
            None => HeaderLine::Invalid,
        }
    } else {
        HeaderLine::Other
    }
}

/// What is to be done after a line of a header, by the length that was given before: a later
/// length takes the place of an earlier one.
pub open spec fn step_after(given: Option<usize>, line: Seq<char>) -> HeaderStep {
    match header_of(line) {
        HeaderLine::End => match given {
            Some(n) => HeaderStep::Body(n),
            None => HeaderStep::Stop,
        },
        HeaderLine::Length(n) => HeaderStep::Continue(Some(n)),
        HeaderLine::Invalid => HeaderStep::Fail,
        HeaderLine::Other => HeaderStep::Continue(given),
    }
}

proof fn lemma_number_step(digits: Seq<char>, i: int)
    requires
        0 < i < digits.len(),
    ensures
        number(digits.take(i + 1)) == (if is_digit(digits[i]) {
            match number(digits.take(i)) {
                Some(n) => Some((10 * n + (digits[i] as u32 - 0x30)) as nat),
                None => None,
            }
        } else {
            None
        }),
{
    assert(digits.take(i + 1).drop_last() =~= digits.take(i));
}

proof fn lemma_no_number(digits: Seq<char>, i: int)
    requires
        0 <= i < digits.len(),
        !is_digit(digits[i]),
    ensures
        number(digits) is None,
    decreases digits.len(),
{
    if i < digits.len() - 1 {
        lemma_no_number(digits.drop_last(), i);
    }
}

proof fn lemma_number_grows(digits: Seq<char>, i: int)
    requires
        0 < i <= digits.len(),
        number(digits) is Some,
    ensures
        number(digits.take(i)) is Some,
        number(digits.take(i))->0 <= number(digits)->0,
    decreases digits.len(),
{
    if i < digits.len() {
        assert(digits.drop_last().take(i) =~= digits.take(i));
        lemma_number_grows(digits.drop_last(), i);
    } else {
        assert(digits.take(i) =~= digits);
    }
}

fn number_of(digits: &Vec<char>) -> (r: Option<usize>)
    ensures
        (match r {
            Some(n) => Some(n as nat),
            None => None,
        }) == (match number(digits@) {
            Some(n) => if n <= usize::MAX {
                Some(n)
            } else {
                None
            },
            None => None,
        }),
{
    if digits.len() == 0 {
        return None;
    }
    let mut n: usize = 0;
    let mut i: usize = 0;
    while i < digits.len()
        invariant
            0 < digits@.len(),
            i <= digits@.len(),
            i == 0 ==> n == 0,
            i > 0 ==> number(digits@.take(i as int)) == Some(n as nat),
        decreases digits@.len() - i,
    {
        let c: char = digits[i];
        let u: u32 = c as u32;
        if u < 0x30 || u > 0x39 {
            proof {
                lemma_no_number(digits@, i as int);
            }
            return None;
        }
        let d: usize = (u - 0x30) as usize;
        proof {
            if i > 0 {
                lemma_number_step(digits@, i as int);
            } else {
                assert(digits@.take(1).last() == c);
            }
            if number(digits@) is Some {
                lemma_number_grows(digits@, i + 1);
            }
        }
        match n.checked_mul(10) {
            Some(tens) => match tens.checked_add(d) {
                Some(sum) => {
                    n = sum;
                },
                None => {
                    return None;
                },
            },
            None => {
                return None;
            },
        }
        i = i + 1;
    }
    assert(digits@.take(digits@.len() as int) =~= digits@);
    Some(n)
}

fn length_of(text: &Vec<char>) -> (r: Option<usize>)
    ensures
        (match r {
            Some(n) => Some(n as nat),
            None => None,
        }) == length_value(text@),
{
    if text.len() > 0 && text[0] == '+' {
        let digits: Vec<char> = subvec(text, 1, text.len());
        assert(digits@ =~= text@.skip(1));
        number_of(&digits)
    } else {
        number_of(text)
    }
}

/// Reads a line of a header.
pub fn read_header_line(line: &str) -> (r: HeaderLine)
    ensures
        r == header_of(line@),
{
    let mut content: Vec<char> = chars_of(line);
    while content.len() > 0 && (content[content.len() - 1] == '\r' || content[content.len() - 1]
        == '\n')
        invariant
            without_line_end(line@) == without_line_end(content@),
        decreases content@.len(),
    {
        let ghost longer = content@;
        content.pop();
        assert(content@ =~= longer.drop_last());
    }
    if content.len() == 0 {
        return HeaderLine::End;
    }
    if has_prefix(&content, "Content-Length: ") {
        let skipped: usize = chars_of("Content-Length: ").len();
        let value: Vec<char> = subvec(&content, skipped, content.len());
        assert(value@ =~= content@.skip("Content-Length: "@.len() as int));
        match length_of(&value) {
            Some(n) => HeaderLine::Length(n),
            None => HeaderLine::Invalid,
        }
    } else {
        HeaderLine::Other
    }
}

/// Goes on with a header after one more line.
pub fn next_header_step(given: Option<usize>, line: &str) -> (r: HeaderStep)
    ensures
        r == step_after(given, line@),
{
    match read_header_line(line) {
        HeaderLine::End => match given {
            Some(n) => HeaderStep::Body(n),
            None => HeaderStep::Stop,
        },
        HeaderLine::Length(n) => HeaderStep::Continue(Some(n)),
        HeaderLine::Invalid => HeaderStep::Fail,
        HeaderLine::Other => HeaderStep::Continue(given),
    }
}

/// The digit of a number below ten.
pub open spec fn digit(n: nat) -> char {
    (0x30 + n) as u8 as char
}

/// A number in decimal digits.
pub open spec fn decimal(n: nat) -> Seq<char>
    decreases n,
{
    if n < 10 {
        seq![digit(n)]
    } else {
        decimal(n / 10).push(digit(n % 10))
    }
}

/// A body with its header.
pub open spec fn framed(body: Seq<char>) -> Seq<char> {
    "Content-Length: "@ + decimal(byte_len(body)) + "\r\n\r\n"@ + body
}

fn push_decimal(n: usize, out: &mut String)
    ensures
        final(out)@ == old(out)@ + decimal(n as nat),
    decreases n,
{
    if n >= 10 {
        push_decimal(n / 10, out);
    }
    let d: u8 = (n % 10) as u8;
    let c: char = (0x30 + d) as char;
    out.push(c);
    assert(out@ =~= old(out)@ + decimal(n as nat));
}

/// Puts a body into a frame.
pub fn frame(body: &str) -> (r: String)
    ensures
        r@ == framed(body@),
{
    let bytes: &[u8] = body.as_bytes();
    let length: usize = bytes.len();
    proof {
        lemma_byte_len_is_encoded_length(body@);
    }
    let mut out: String = "Content-Length: ".to_owned();
    push_decimal(length, &mut out);
    out.append("\r\n\r\n");
    out.append(body);
    out
}

proof fn lemma_decimal_reads_back(n: nat)
    ensures
        number(decimal(n)) == Some(n),
        decimal(n).len() > 0,
        is_digit(decimal(n)[0]),
        is_digit(decimal(n).last()),
    decreases n,
{
    if n < 10 {
        assert(decimal(n).last() == digit(n));
    } else {
        lemma_decimal_reads_back(n / 10);
        assert(decimal(n).drop_last() =~= decimal(n / 10));
    }
}

/// What a frame says of the length of its body is what a reader takes from it: the first line
/// gives the number of bytes, and the second one ends the header.
pub proof fn frames_read_back(body: Seq<char>)
    requires
        byte_len(body) <= usize::MAX,
    ensures
        framed(body) == ("Content-Length: "@ + decimal(byte_len(body)) + "\r\n"@) + "\r\n"@ + body,
        step_after(None, "Content-Length: "@ + decimal(byte_len(body)) + "\r\n"@)
            == HeaderStep::Continue(Some(byte_len(body) as usize)),
        step_after(Some(byte_len(body) as usize), "\r\n"@) == HeaderStep::Body(
            byte_len(body) as usize,
        ),
{
    let n = byte_len(body);
    let digits = decimal(n);
    let prefix = "Content-Length: "@;
    let line = prefix + digits + "\r\n"@;
    reveal_strlit("\r\n");
    reveal_strlit("\r\n\r\n");
    reveal_strlit("Content-Length: ");
    lemma_decimal_reads_back(n);
    assert("\r\n\r\n"@ =~= "\r\n"@ + "\r\n"@);
    assert(framed(body) =~= line + "\r\n"@ + body);
    reveal_with_fuel(without_line_end, 4);
    assert(line.drop_last().drop_last() =~= prefix + digits);
    assert((prefix + digits).last() == digits.last());
    assert(without_line_end(line) == prefix + digits);
    assert((prefix + digits).subrange(0, prefix.len() as int) =~= prefix);
    assert((prefix + digits).skip(prefix.len() as int) =~= digits);
    assert("\r\n"@.drop_last().drop_last() =~= Seq::<char>::empty());
    assert(without_line_end("\r\n"@).len() == 0);
}

/// The line ends at the end of a line do not count, whichever and however many they are.
pub proof fn line_ends_do_not_count(content: Seq<char>, ends: Seq<char>)
    requires
        content.len() == 0 || (content.last() != '\r' && content.last() != '\n'),
        forall|i: int| 0 <= i < ends.len() ==> #[trigger] ends[i] == '\r' || ends[i] == '\n',
    ensures
        without_line_end(content + ends) == content,
    decreases ends.len(),
{
    let line = content + ends;
    if ends.len() == 0 {
        assert(line =~= content);
    } else {
        assert(line.last() == ends[ends.len() - 1]);
        assert(line.drop_last() =~= content + ends.drop_last());
        line_ends_do_not_count(content, ends.drop_last());
    }
}

/// Digits are read in tens: behind what is read so far, one more digit counts once and what was
/// read ten times. Whatever holds anything but digits, or nothing, is no number.
pub proof fn digits_are_read_in_tens(digits: Seq<char>, c: char)
    ensures
        '0' <= c <= '9' ==> number(seq![c]) == Some((c as u32 - '0' as u32) as nat),
        '0' <= c <= '9' && number(digits) is Some ==> number(digits.push(c)) == Some(
            (10 * number(digits)->0 + (c as u32 - '0' as u32)) as nat,
        ),
        !('0' <= c <= '9') ==> number(digits.push(c)) is None,
        digits.len() > 0 && number(digits) is None ==> number(digits.push(c)) is None,
        number(Seq::empty()) is None,
{
    assert(digits.push(c).drop_last() =~= digits);
    assert(seq![c].last() == c);
}

/// A number is written in decimal digits that read as the number.
pub proof fn numbers_read_back(n: nat)
    ensures
        number(decimal(n)) == Some(n),
{
    lemma_decimal_reads_back(n);
}

/// A line that gives a length has it count from then on, whatever was given before; one whose
/// length is no number, or too large, fails. An empty line ends the header, with the length that
/// was given, and any other line changes nothing.
pub proof fn headers_give_the_length(given: Option<usize>, value: Seq<char>, ends: Seq<char>)
    requires
        value.len() > 0,
        value.last() != '\r',
        value.last() != '\n',
        forall|i: int| 0 <= i < ends.len() ==> #[trigger] ends[i] == '\r' || ends[i] == '\n',
    ensures
        value[0] != '+' && number(value) is Some && number(value)->0 <= usize::MAX ==> step_after(
            given,
            "Content-Length: "@ + value + ends,
        ) == HeaderStep::Continue(Some(number(value)->0 as usize)),
        value[0] != '+' && (number(value) is None || number(value)->0 > usize::MAX) ==> step_after(
            given,
            "Content-Length: "@ + value + ends,
        ) == HeaderStep::Fail,
        !starts_with(value, "Content-Length: "@) ==> step_after(given, value + ends)
            == HeaderStep::Continue(given),
        given is Some ==> step_after(given, ends) == HeaderStep::Body(given->0),
        given is None ==> step_after(given, ends) == HeaderStep::Stop,
{
    let prefix = "Content-Length: "@;
    let content = prefix + value;
    assert(content.last() == value.last());
    line_ends_do_not_count(content, ends);
    line_ends_do_not_count(value, ends);
    line_ends_do_not_count(Seq::empty(), ends);
    assert(Seq::<char>::empty() + ends =~= ends);
    assert(content.subrange(0, prefix.len() as int) =~= prefix);
    assert(content.skip(prefix.len() as int) =~= value);
}

/// A plus sign before the digits of a length changes nothing.
pub proof fn plus_signs_change_nothing(digits: Seq<char>)
    requires
        digits.len() > 0,
        digits[0] != '+',
    ensures
        length_value(seq!['+'] + digits) == length_value(digits),
        length_value(digits) == (if number(digits) is Some && number(digits)->0 <= usize::MAX {
            number(digits)
        } else {
            None
        }),
{
    assert((seq!['+'] + digits).skip(1) =~= digits);
}

}
