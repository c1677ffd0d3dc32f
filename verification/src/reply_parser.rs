//! Reading a modem's reply.
//!
//! The bytes are matched by the `at_commands` parser. This module says what
//! each step of that parser does to the bytes it has not read yet, and holds
//! the test that keeps a number out of the parser when reading it would
//! leave 32 bits.

use vstd::prelude::*;
use at_commands::parser::CommandParser;
use at_commands::parser::ParseError;
use crate::text::all_digits;
use crate::text::digits_value;
use crate::text::is_digit;
use crate::text::lemma_digits_value_grows;
use crate::text::MINUS;
use crate::text::PLUS;
use crate::text::SPACE;
use crate::text::ZERO;
use crate::AtError;

verus! {

/// The parser of the `at_commands` crate. Its fields are not visible to
/// verified code.
#[verifier::external_type_specification]
#[verifier::external_body]
#[verifier::reject_recursive_types(D)]
pub struct ExCommandParser<'a, D>(CommandParser<'a, D>);

/// The error of the `at_commands` parser. It tells nothing to its holder.
#[verifier::external_type_specification]
#[verifier::external_body]
pub struct ExParseError(ParseError);

/// What a parser that has read no value yet still has before it: the bytes
/// from its read position to the end of the reply, or `None` once a step has
/// failed.
pub uninterp spec fn parser_rest(p: CommandParser<'_, ()>) -> Option<Seq<u8>>;

/// The same for a parser that has read one number: the number and the bytes
/// from its read position on, or `None` once a step has failed.
pub uninterp spec fn int_parser_state(p: CommandParser<'_, (i32,)>) -> Option<(i32, Seq<u8>)>;

/// The kinds of byte that the parser reads in runs.
#[derive(Clone, Copy)]
pub enum ByteClass {
    /// The space, and no other blank.
    Space,
    /// The decimal digits.
    Digit,
    /// What may stand in a number: the decimal digits and both signs.
    Numeric,
}

/// Whether `b` is of the kind `class`.
pub open spec fn in_class(class: ByteClass, b: u8) -> bool {
    match class {
        ByteClass::Space => b == 32u8,
        ByteClass::Digit => is_digit(b),
        ByteClass::Numeric => is_digit(b) || b == 45u8 || b == 43u8,
    }
}

/// How many bytes at the front of `s` are of the kind `class`.
pub open spec fn leading(s: Seq<u8>, class: ByteClass) -> nat
    decreases s.len(),
{
    if s.len() > 0 && in_class(class, s[0]) {
        1 + leading(s.drop_first(), class)
    } else {
        0
    }
}

/// `s` without the spaces at its front.
pub open spec fn skip_spaces(s: Seq<u8>) -> Seq<u8> {
    s.skip(leading(s, ByteClass::Space) as int)
}

/// What is left after the parser was asked for `identifier`: the bytes behind
/// it and behind the spaces that follow it, if the bytes at hand begin with
/// it.
pub open spec fn after_identifier(rest: Option<Seq<u8>>, identifier: Seq<u8>) -> Option<Seq<u8>> {
    match rest {
        Some(s) => if identifier.is_prefix_of(s) {
            Some(skip_spaces(s.skip(identifier.len() as int)))
        } else {
            None
        },
        None => None,
    }
}

/// The text of the number at the front of `s`: the run of digits and signs,
/// without one plus sign at its front.
pub open spec fn int_text(s: Seq<u8>) -> Seq<u8> {
    let run = s.take(leading(s, ByteClass::Numeric) as int);
    if run.len() > 0 && run[0] == 43u8 {
        run.drop_first()
    } else {
        run
    }
}

/// The number that `t` denotes: up to eleven bytes, a minus sign or none,
/// then digits only. A minus sign alone denotes 0.
pub open spec fn int_text_value(t: Seq<u8>) -> Option<int> {
    if t.len() == 0 || t.len() > 11 {
        None
    } else if t[0] == 45u8 {
        if all_digits(t.drop_first()) {
            Some(-(digits_value(t.drop_first()) as int))
        } else {
            None
        }
    } else if all_digits(t) {
        Some(digits_value(t) as int)
    } else {
        None
    }
}

/// Whether the parser can read `t` without leaving 32 bits on the way. It
/// adds up the digits at the front of `t`, behind a minus sign if there is
/// one, as a negative number, and turns the sum round at the end if `t` was
/// digits only and had no minus sign.
pub open spec fn int_text_safe(t: Seq<u8>) -> bool {
    0 < t.len() <= 11 ==> {
        let negative = t[0] == 45u8;
        let body = if negative {
            t.drop_first()
        } else {
            t
        };
        let digits = body.take(leading(body, ByteClass::Digit) as int);
        digits_value(digits) <= if negative || digits.len() < body.len() {
            0x8000_0000nat
        } else {
            0x7fff_ffffnat
        }
    }
}

/// What is left behind the number at the front of `s`: the bytes behind the
/// run of digits and signs, behind one comma if it follows the run, and
/// behind the spaces after that.
pub open spec fn after_int(s: Seq<u8>) -> Seq<u8> {
    let run = leading(s, ByteClass::Numeric) as int;
    if run < s.len() && s[run] == 44u8 {
        skip_spaces(s.skip(run + 1))
    } else {
        skip_spaces(s.skip(run))
    }
}

/// Calls `CommandParser::parse`: the parser has the whole reply before it.
#[verifier::external_body]
pub(crate) fn parse<'a>(data: &'a [u8]) -> (p: CommandParser<'a, ()>)
    ensures
        parser_rest(p) == Some(data@),
{
    CommandParser::parse(data)
}

/// Calls `CommandParser::expect_identifier` on a parser that has read no
/// value: it fails unless the bytes at hand begin with `identifier`, and
/// goes past it and the spaces behind it.
#[verifier::external_body]
pub(crate) fn expect_identifier<'a>(p: CommandParser<'a, ()>, identifier: &[u8]) -> (after:
    CommandParser<'a, ()>)
    ensures
        parser_rest(after) == after_identifier(parser_rest(p), identifier@),
{
    p.expect_identifier(identifier)
}

/// Calls `CommandParser::expect_int_parameter`: it fails unless a number
/// stands at the front, and goes past the number, one comma and the spaces
/// behind it.
#[verifier::external_body]
pub(crate) fn expect_int_parameter<'a>(p: CommandParser<'a, ()>) -> (after: CommandParser<
    'a,
    (i32,),
>)
    requires
        parser_rest(p) matches Some(s) ==> int_text_safe(int_text(s)),
    ensures
        int_parser_state(after) == match parser_rest(p) {
            Some(s) => match int_text_value(int_text(s)) {
                Some(v) => Some((v as i32, after_int(s))),
                None => None,
            },
            None => None,
        },
{
    p.expect_int_parameter()
}

/// Calls `CommandParser::expect_identifier` on a parser that has read one
/// number: the number stays, the bytes are matched as before.
#[verifier::external_body]
pub(crate) fn expect_identifier_after_int<'a>(
    p: CommandParser<'a, (i32,)>,
    identifier: &[u8],
) -> (after: CommandParser<'a, (i32,)>)
    ensures
        int_parser_state(after) == match int_parser_state(p) {
            Some((v, s)) => match after_identifier(Some(s), identifier@) {
                Some(left) => Some((v, left)),
                None => None,
            },
            None => None,
        },
{
    p.expect_identifier(identifier)
}

/// Calls `CommandParser::finish` on a parser that has read no value: an
/// error if and only if a step has failed.
#[verifier::external_body]
pub(crate) fn finish<'a>(p: CommandParser<'a, ()>) -> (r: Result<(), ParseError>)
    ensures
        r is Ok <==> parser_rest(p) is Some,
{
    p.finish()
}

/// Calls `CommandParser::finish` on a parser that has read one number: the
/// number, or an error if and only if a step has failed.
#[verifier::external_body]
pub(crate) fn finish_int<'a>(p: CommandParser<'a, (i32,)>) -> (r: Result<(i32,), ParseError>)
    ensures
        r is Ok <==> int_parser_state(p) is Some,
        r is Ok ==> r->Ok_0.0 == int_parser_state(p)->Some_0.0,
{
    p.finish()
}

/// A run of `n` bytes of one kind at the front of `s`, with a byte of
/// another kind or the end behind it, is the whole run.
pub proof fn lemma_leading(s: Seq<u8>, class: ByteClass, n: nat)
    requires
        n <= s.len(),
        forall|i: int| 0 <= i < n ==> in_class(class, #[trigger] s[i]),
        n < s.len() ==> !in_class(class, s[n as int]),
    ensures
        leading(s, class) == n,
    decreases n,
{
    if n > 0 {
        let rest = s.drop_first();
        assert forall|i: int| 0 <= i < n - 1 implies in_class(class, #[trigger] rest[i]) by {
            assert(rest[i] == s[i + 1]);
        }
        lemma_leading(rest, class, (n - 1) as nat);
    }
}

/// The run at the front of `s` lies inside `s`, holds bytes of its kind
/// only, and ends before a byte of another kind.
pub proof fn lemma_leading_run(s: Seq<u8>, class: ByteClass)
    ensures
        leading(s, class) <= s.len(),
        forall|i: int| 0 <= i < leading(s, class) ==> in_class(class, #[trigger] s[i]),
        leading(s, class) < s.len() ==> !in_class(class, s[leading(s, class) as int]),
    decreases s.len(),
{
    if s.len() > 0 && in_class(class, s[0]) {
        let rest = s.drop_first();
        lemma_leading_run(rest, class);
        assert forall|i: int| 0 <= i < leading(s, class) implies in_class(
            class,
            #[trigger] s[i],
        ) by {
            if i > 0 {
                assert(s[i] == rest[i - 1]);
            }
        }
        if leading(s, class) < s.len() {
            assert(s[leading(s, class) as int] == rest[leading(rest, class) as int]);
        }
    }
}

/// Whether `b` is of the kind `class`.
pub fn byte_in_class(class: ByteClass, b: u8) -> (r: bool)
    ensures
        r == in_class(class, b),
{
    match class {
        ByteClass::Space => b == SPACE,
        ByteClass::Digit => ZERO <= b && b <= ZERO + 9,
        ByteClass::Numeric => (ZERO <= b && b <= ZERO + 9) || b == MINUS || b == PLUS,
    }
}

/// The position behind the run of bytes of the kind `class` that starts at
/// `start`.
pub fn run_end(data: &[u8], start: usize, class: ByteClass) -> (end: usize)
    requires
        start <= data@.len(),
    ensures
        start <= end <= data@.len(),
        end - start == leading(data@.skip(start as int), class),
{
    let mut end: usize = start;
    while end < data.len() && byte_in_class(class, data[end])
        invariant
            start <= end <= data@.len(),
            forall|i: int| start <= i < end ==> in_class(class, #[trigger] data@[i]),
        decreases data@.len() - end,
    {
        end = end + 1;
    }
    proof {
        let s = data@.skip(start as int);
        assert forall|i: int| 0 <= i < end - start implies in_class(class, #[trigger] s[i]) by {
            assert(s[i] == data@[start + i]);
        }
        lemma_leading(s, class, (end - start) as nat);
    }
    end
}

/// The digits at the front of `body` are worth at least as much as any run
/// of digits that starts there.
pub proof fn lemma_digit_run_grows(body: Seq<u8>, n: nat)
    requires
        n <= body.len(),
        forall|i: int| 0 <= i < n ==> is_digit(#[trigger] body[i]),
    ensures
        n <= leading(body, ByteClass::Digit),
        all_digits(body.take(leading(body, ByteClass::Digit) as int)),
        digits_value(body.take(n as int)) <= digits_value(
            body.take(leading(body, ByteClass::Digit) as int),
        ),
{
    lemma_leading_run(body, ByteClass::Digit);
    let run = leading(body, ByteClass::Digit);
    if run < n {
        assert(in_class(ByteClass::Digit, body[run as int]));
    }
    let digits = body.take(run as int);
    assert forall|i: int| 0 <= i < digits.len() implies is_digit(#[trigger] digits[i]) by {
        assert(in_class(ByteClass::Digit, body[i]));
    }
    lemma_digits_value_grows(digits, n);
    assert(digits.take(n as int) == body.take(n as int));
}

/// Whether the parser can read the text of a number that lies from `from`
/// up to `end` without leaving 32 bits.
pub fn int_text_fits(data: &[u8], from: usize, end: usize) -> (fits: bool)
    requires
        from <= end <= data@.len(),
    ensures
        fits == int_text_safe(data@.subrange(from as int, end as int)),
{
    if from == end || end - from > 11 {
        return true;
    }
    let ghost t = data@.subrange(from as int, end as int);
    let negative = data[from] == MINUS;
    let digits_from: usize = if negative {
        from + 1
    } else {
        from
    };
    let ghost body = data@.subrange(digits_from as int, end as int);
    assert(t[0] == data@[from as int]);
    assert(body == if negative {
        t.drop_first()
    } else {
        t
    });
    let mut sum: u64 = 0;
    let mut at: usize = digits_from;
    while at < end && byte_in_class(ByteClass::Digit, data[at])
        invariant
            from <= end,
            t == data@.subrange(from as int, end as int),
            0 < t.len() <= 11,
            negative == (t[0] == 45u8),
            body == if negative {
                t.drop_first()
            } else {
                t
            },
            digits_from <= at <= end <= data@.len(),
            body == data@.subrange(digits_from as int, end as int),
            forall|i: int| 0 <= i < at - digits_from ==> is_digit(#[trigger] body[i]),
            sum == digits_value(body.take(at - digits_from)),
            sum <= 0x8000_0000,
        decreases end - at,
    {
        let ghost now = body.take(at + 1 - digits_from);
        assert(now.drop_last() == body.take(at - digits_from));
        assert(now.last() == data@[at as int]);
        let next: u64 = sum * 10 + (data[at] - ZERO) as u64;
        if next > 0x8000_0000 {
            proof {
                lemma_digit_run_grows(body, (at + 1 - digits_from) as nat);
            }
            return false;
        }
        sum = next;
        at = at + 1;
    }
    proof {
        if at < end {
            assert(body[at - digits_from] == data@[at as int]);
        }
        lemma_leading(body, ByteClass::Digit, (at - digits_from) as nat);
    }
    if negative || at < end {
        true
    } else {
        sum <= 0x7fff_ffff
    }
}

/// Whether the parser can read the number that stands at `start`, behind
/// spaces if there are any, without leaving 32 bits.
pub fn int_parameter_fits(data: &[u8], start: usize) -> (fits: bool)
    requires
        start <= data@.len(),
    ensures
        fits == int_text_safe(int_text(skip_spaces(data@.skip(start as int)))),
{
    let from = run_end(data, start, ByteClass::Space);
    let end = run_end(data, from, ByteClass::Numeric);
    let ghost s = data@.skip(from as int);
    let ghost run = s.take(end - from);
    assert(s == skip_spaces(data@.skip(start as int))) by {
        assert(data@.skip(start as int).skip(from - start) == s);
    }
    let text_from: usize = if from < end && data[from] == PLUS {
        from + 1
    } else {
        from
    };
    assert(int_text(s) == data@.subrange(text_from as int, end as int)) by {
        assert(run == data@.subrange(from as int, end as int));
        if from < end {
            assert(run[0] == data@[from as int]);
            assert(run.drop_first() == data@.subrange(from + 1, end as int));
        }
    }
    int_text_fits(data, text_from, end)
}

/// The number in a reply that is made of `prefix`, a number and `end`, with
/// spaces allowed behind each of the three and one comma behind the number.
/// Bytes behind `end` are not looked at. There is no number where a part does
/// not match or the number leaves 32 bits.
pub open spec fn tagged_int(data: Seq<u8>, prefix: Seq<u8>, end: Seq<u8>) -> Option<i32> {
    match after_identifier(Some(data), prefix) {
        Some(s) => match int_text_value(int_text(s)) {
            Some(v) => if -0x8000_0000 <= v <= 0x7fff_ffff && end.is_prefix_of(after_int(s)) {
                Some(v as i32)
            } else {
                None
            },
            None => None,
        },
        None => None,
    }
}

/// A text that denotes a number can be read within 32 bits if and only if
/// the number fits in 32 bits.
pub proof fn lemma_safe_iff_in_range(t: Seq<u8>)
    requires
        int_text_value(t) is Some,
    ensures
        int_text_safe(t) <==> -0x8000_0000 <= int_text_value(t)->Some_0 <= 0x7fff_ffff,
{
    let body = if t[0] == 45u8 {
        t.drop_first()
    } else {
        t
    };
    assert(all_digits(body));
    lemma_leading(body, ByteClass::Digit, body.len());
    assert(body.take(body.len() as int) == body);
}

/// Reads a reply that has to begin with `identifier`. What follows the
/// identifier is not looked at.
pub fn read_identifier(data: &[u8], identifier: &[u8]) -> (r: Result<(), AtError>)
    ensures
        r == if identifier@.is_prefix_of(data@) {
            Ok::<(), AtError>(())
        } else {
            Err::<(), AtError>(AtError::MalformedReply)
        },
{
    let parser = parse(data);
    let parser = expect_identifier(parser, identifier);
    match finish(parser) {
        Ok(_) => Ok(()),
        Err(_) => Err(AtError::MalformedReply),
    }
}

/// Reads a reply that is made of `prefix`, a number and `end`.
pub fn read_tagged_int(data: &[u8], prefix: &[u8], end: &[u8]) -> (r: Result<i32, AtError>)
    ensures
        r == match tagged_int(data@, prefix@, end@) {
            Some(v) => Ok::<i32, AtError>(v),
            None => Err::<i32, AtError>(AtError::MalformedReply),
        },
{
    if prefix.len() <= data.len() && !int_parameter_fits(data, prefix.len()) {
        proof {
            let s = skip_spaces(data@.skip(prefix@.len() as int));
            if int_text_value(int_text(s)) is Some {
                lemma_safe_iff_in_range(int_text(s));
            }
        }
        return Err(AtError::MalformedReply);
    }
    let parser = parse(data);
    let parser = expect_identifier(parser, prefix);
    proof {
        if parser_rest(parser) is Some {
            let s = parser_rest(parser)->Some_0;
            if int_text_value(int_text(s)) is Some {
                lemma_safe_iff_in_range(int_text(s));
            }
        }
    }
    let parser = expect_int_parameter(parser);
    let parser = expect_identifier_after_int(parser, end);
    match finish_int(parser) {
        Ok(values) => Ok(values.0),
        Err(_) => Err(AtError::MalformedReply),
    }
}

} // verus!
