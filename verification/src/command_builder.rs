//! Writing a set command into a caller's buffer.
//!
//! The bytes are laid down by the `at_commands` builder. This module says
//! what each step of that builder does to the buffer, and on top of those
//! statements proves what a finished command looks like.

use vstd::prelude::*;
use at_commands::builder::CommandBuilder;
use crate::text::signed_decimal;

verus! {

/// The builder of the `at_commands` crate. Its fields are not visible to
/// verified code.
#[verifier::external_type_specification]
#[verifier::external_body]
#[verifier::reject_recursive_types(STAGE)]
pub struct ExCommandBuilder<'a, STAGE>(CommandBuilder<'a, STAGE>);

/// The marker of a builder that has its name and takes parameters.
#[verifier::external_type_specification]
#[verifier::external_body]
pub struct ExSetStage(at_commands::builder::Set);

/// The bytes that the buffer of a builder holds now, from its first byte to
/// its last.
pub uninterp spec fn builder_buffer(b: CommandBuilder<'_, at_commands::builder::Set>) -> Seq<u8>;

/// The write position of a builder: the number of bytes that it has been
/// handed so far. It runs past the end of the buffer where they did not fit.
pub uninterp spec fn builder_position(b: CommandBuilder<'_, at_commands::builder::Set>) -> nat;

/// The bytes that the buffer of a builder holds when the builder has been
/// finished, which is how the lender of the buffer finds it.
pub uninterp spec fn builder_outcome(b: CommandBuilder<'_, at_commands::builder::Set>) -> Seq<u8>;

/// What a buffer holds after the builder was handed `data` at the position
/// `at`: the data lie there if they end inside the buffer, and nothing has
/// changed if they do not.
pub open spec fn put(buffer: Seq<u8>, at: nat, data: Seq<u8>) -> Seq<u8> {
    if at + data.len() <= buffer.len() {
        buffer.take(at as int) + data + buffer.skip((at + data.len()) as int)
    } else {
        buffer
    }
}

/// What a buffer holds after the builder was handed the pieces of `data` one
/// after another, the first of them at the position `at`.
pub open spec fn put_all(buffer: Seq<u8>, at: nat, data: Seq<Seq<u8>>) -> Seq<u8>
    decreases data.len(),
{
    if data.len() == 0 {
        buffer
    } else {
        put_all(put(buffer, at, data[0]), at + data[0].len(), data.drop_first())
    }
}

/// The prefix that a command may start with: `AT`, or nothing.
pub open spec fn at_text(at_prefix: bool) -> Seq<u8> {
    if at_prefix {
        seq![65u8, 84u8]
    } else {
        Seq::<u8>::empty()
    }
}

/// The equals sign that stands behind the name of a set command.
pub open spec fn equals_sign() -> Seq<u8> {
    seq![61u8]
}

/// The comma that stands between two parameters.
pub open spec fn comma() -> Seq<u8> {
    seq![44u8]
}

/// The double quote that stands on either side of a string.
pub open spec fn quote() -> Seq<u8> {
    seq![34u8]
}

/// The line ending that closes a command.
pub open spec fn line_end() -> Seq<u8> {
    seq![13u8, 10u8]
}

/// The start of a set command: the prefix `AT` if asked for, the name, and
/// the equals sign.
pub open spec fn command_head(at_prefix: bool, name: Seq<u8>) -> Seq<u8> {
    at_text(at_prefix) + name + equals_sign()
}

/// An integer parameter: its decimal text and a comma.
pub open spec fn int_parameter(value: int) -> Seq<u8> {
    signed_decimal(value) + comma()
}

/// A string parameter: the bytes between double quotes, and a comma.
pub open spec fn string_parameter(value: Seq<u8>) -> Seq<u8> {
    quote() + value + quote() + comma()
}

/// A raw parameter: the bytes as they are, and a comma.
pub open spec fn raw_parameter(value: Seq<u8>) -> Seq<u8> {
    value + comma()
}

/// The pieces in which the builder is handed the start of a set command.
pub open spec fn head_pieces(at_prefix: bool, name: Seq<u8>) -> Seq<Seq<u8>> {
    seq![at_text(at_prefix), name, equals_sign()]
}

/// The pieces in which the builder is handed an integer parameter.
pub open spec fn int_pieces(value: int) -> Seq<Seq<u8>> {
    seq![signed_decimal(value), comma()]
}

/// The pieces in which the builder is handed a string parameter.
pub open spec fn string_pieces(value: Seq<u8>) -> Seq<Seq<u8>> {
    seq![quote(), value, quote(), comma()]
}

/// The pieces in which the builder is handed a raw parameter.
pub open spec fn raw_pieces(value: Seq<u8>) -> Seq<Seq<u8>> {
    seq![value, comma()]
}

/// The pieces of `data` put end to end.
pub open spec fn joined(data: Seq<Seq<u8>>) -> Seq<u8>
    decreases data.len(),
{
    if data.len() == 0 {
        Seq::<u8>::empty()
    } else {
        data[0] + joined(data.drop_first())
    }
}

/// What a buffer that held `before` holds after a command was encoded into
/// it whose text the builder was handed in the pieces `data`: each piece
/// lies there as long as it ends inside the buffer, and so does the line
/// ending, which takes the place of the last comma.
pub open spec fn written(before: Seq<u8>, data: Seq<Seq<u8>>) -> Seq<u8> {
    put(
        put_all(before, 0, data),
        closing_position(put_all(before, 0, data), joined(data).len()),
        line_end(),
    )
}

/// The position from which the builder writes the line ending: it steps
/// back over a comma that is the last byte written, if that byte lies inside
/// the buffer.
pub open spec fn closing_position(buffer: Seq<u8>, position: nat) -> nat {
    if position <= buffer.len() && buffer[position - 1] == 44u8 {
        (position - 1) as nat
    } else {
        position
    }
}

/// Calls `CommandBuilder::create_set` and then `named` on its result. The
/// builder starts at the front of `buffer` and is handed `AT` where
/// `at_prefix` is set, then `name`, then `=`. The buffer is lent to the
/// builder, and comes back as the builder leaves it.
#[verifier::external_body]
pub(crate) fn set_command<'a>(buffer: &'a mut [u8], at_prefix: bool, name: &[u8]) -> (b:
    CommandBuilder<'a, at_commands::builder::Set>)
    requires
        name@.len() + 3 <= usize::MAX,
    ensures
        builder_position(b) == command_head(at_prefix, name@).len(),
        builder_buffer(b) == put_all(old(buffer)@, 0, head_pieces(at_prefix, name@)),
        final(buffer)@ == builder_outcome(b),
{
    CommandBuilder::create_set(buffer, at_prefix).named(name)
}

/// Calls `CommandBuilder::with_int_parameter`, which hands the builder the
/// decimal text of `value` and then a comma.
#[verifier::external_body]
pub(crate) fn with_int_parameter<'a>(
    b: CommandBuilder<'a, at_commands::builder::Set>,
    value: i32,
) -> (after: CommandBuilder<'a, at_commands::builder::Set>)
    requires
        builder_position(b) + int_parameter(value as int).len() <= usize::MAX,
    ensures
        builder_position(after) == builder_position(b) + int_parameter(value as int).len(),
        builder_buffer(after) == put_all(
            builder_buffer(b),
            builder_position(b),
            int_pieces(value as int),
        ),
        builder_outcome(after) == builder_outcome(b),
{
    b.with_int_parameter(value)
}

/// Calls `CommandBuilder::with_string_parameter`, which hands the builder a
/// double quote, the bytes of `value` unchanged, a double quote and a comma.
#[verifier::external_body]
pub(crate) fn with_string_parameter<'a>(
    b: CommandBuilder<'a, at_commands::builder::Set>,
    value: &[u8],
) -> (after: CommandBuilder<'a, at_commands::builder::Set>)
    requires
        builder_position(b) + string_parameter(value@).len() <= usize::MAX,
    ensures
        builder_position(after) == builder_position(b) + string_parameter(value@).len(),
        builder_buffer(after) == put_all(
            builder_buffer(b),
            builder_position(b),
            string_pieces(value@),
        ),
        builder_outcome(after) == builder_outcome(b),
{
    b.with_string_parameter(value)
}

/// Calls `CommandBuilder::with_raw_parameter`, which hands the builder the
/// bytes of `value` unchanged and then a comma.
#[verifier::external_body]
pub(crate) fn with_raw_parameter<'a>(
    b: CommandBuilder<'a, at_commands::builder::Set>,
    value: &[u8],
) -> (after: CommandBuilder<'a, at_commands::builder::Set>)
    requires
        builder_position(b) + raw_parameter(value@).len() <= usize::MAX,
    ensures
        builder_position(after) == builder_position(b) + raw_parameter(value@).len(),
        builder_buffer(after) == put_all(builder_buffer(b), builder_position(b), raw_pieces(value@)),
        builder_outcome(after) == builder_outcome(b),
{
    b.with_raw_parameter(value)
}

/// Calls `CommandBuilder::finish`. The builder steps back over a last comma
/// and is handed the line ending. If the line ending ends inside the buffer,
/// the result is the buffer up to there, and the buffer is left holding
/// those bytes and behind them what it held before. If not, the result is
/// the position that the builder has reached, and the buffer is left as it
/// was.
#[verifier::external_body]
pub(crate) fn finish<'a>(b: CommandBuilder<'a, at_commands::builder::Set>) -> (r: Result<
    &'a [u8],
    usize,
>)
    requires
        builder_position(b) >= 1,
        builder_position(b) + 2 <= usize::MAX,
    ensures
        closing_position(builder_buffer(b), builder_position(b)) + 2 <= builder_buffer(b).len()
            ==> r is Ok,
        closing_position(builder_buffer(b), builder_position(b)) + 2 > builder_buffer(b).len()
            ==> r is Err,
        r is Ok ==> r->Ok_0@ == put(
            builder_buffer(b),
            closing_position(builder_buffer(b), builder_position(b)),
            line_end(),
        ).take((closing_position(builder_buffer(b), builder_position(b)) + 2) as int),
        r is Ok ==> builder_outcome(b) == r->Ok_0@ + builder_buffer(b).skip(
            r->Ok_0@.len() as int,
        ),
        r is Err ==> r->Err_0 == closing_position(builder_buffer(b), builder_position(b)) + 2,
        r is Err ==> builder_outcome(b) == builder_buffer(b),
{
    b.finish()
}

/// Whether a builder that was lent a buffer holding `before` has been handed
/// the pieces `data` so far.
pub open spec fn holds(
    b: CommandBuilder<'_, at_commands::builder::Set>,
    data: Seq<Seq<u8>>,
    before: Seq<u8>,
) -> bool {
    &&& builder_position(b) == joined(data).len()
    &&& builder_buffer(b) == put_all(before, 0, data)
}

/// A parameter list turned into a whole command: the last comma gives way to
/// the line ending.
pub open spec fn closed(text: Seq<u8>) -> Seq<u8> {
    text.drop_last() + line_end()
}

/// What encoding the command `wire` into a buffer of `room` bytes gives: the
/// bytes of the command where they fit, and otherwise the number of bytes
/// by which the buffer is too short.
pub open spec fn encoded_as(r: Result<&[u8], usize>, wire: Seq<u8>, room: nat) -> bool {
    if wire.len() <= room {
        r is Ok && r->Ok_0@ == wire
    } else {
        r is Err && r->Err_0 == wire.len() - room
    }
}

/// How a buffer that held `before` stands after the command `wire` was
/// encoded into it: as long as it was, and where the command fits, with the
/// command at its front and every byte behind the command unchanged.
pub open spec fn left_with(before: Seq<u8>, after: Seq<u8>, wire: Seq<u8>) -> bool {
    &&& after.len() == before.len()
    &&& wire.len() <= before.len() ==> after == wire + before.skip(wire.len() as int)
}

/// Two runs of pieces put end to end are the two runs joined.
pub proof fn lemma_joined_add(first: Seq<Seq<u8>>, second: Seq<Seq<u8>>)
    ensures
        joined(first + second) == joined(first) + joined(second),
    decreases first.len(),
{
    if first.len() == 0 {
        assert(first + second =~= second);
        assert(joined(first) + joined(second) =~= joined(second));
    } else {
        assert((first + second).drop_first() =~= first.drop_first() + second);
        lemma_joined_add(first.drop_first(), second);
        assert((first + second)[0] == first[0]);
        assert(joined(first + second) =~= joined(first) + joined(second));
    }
}

/// Handing over a second run of pieces behind a first is handing over both
/// runs in one.
pub proof fn lemma_put_all_add(
    buffer: Seq<u8>,
    at: nat,
    first: Seq<Seq<u8>>,
    second: Seq<Seq<u8>>,
)
    ensures
        put_all(put_all(buffer, at, first), at + joined(first).len(), second) == put_all(
            buffer,
            at,
            first + second,
        ),
    decreases first.len(),
{
    if first.len() == 0 {
        assert(first + second =~= second);
    } else {
        assert((first + second).drop_first() =~= first.drop_first() + second);
        assert((first + second)[0] == first[0]);
        lemma_put_all_add(
            put(buffer, at, first[0]),
            at + first[0].len(),
            first.drop_first(),
            second,
        );
    }
}

/// Pieces that end inside the buffer lie there end to end, between what the
/// buffer held in front of them and what it held behind them; and whether
/// they fit or not, the buffer keeps its length.
pub proof fn lemma_put_all_fits(buffer: Seq<u8>, at: nat, data: Seq<Seq<u8>>)
    ensures
        put_all(buffer, at, data).len() == buffer.len(),
        at + joined(data).len() <= buffer.len() ==> put_all(buffer, at, data) == buffer.take(
            at as int,
        ) + joined(data) + buffer.skip((at + joined(data).len()) as int),
    decreases data.len(),
{
    if data.len() == 0 {
        if at <= buffer.len() {
            assert(buffer =~= buffer.take(at as int) + joined(data) + buffer.skip(at as int));
        }
    } else {
        let next = put(buffer, at, data[0]);
        lemma_put_all_fits(next, at + data[0].len(), data.drop_first());
        if at + joined(data).len() <= buffer.len() {
            assert(put_all(buffer, at, data) =~= buffer.take(at as int) + joined(data)
                + buffer.skip((at + joined(data).len()) as int));
        }
    }
}

/// Starts the set command `name`, with `AT` in front, at the front of
/// `buffer`.
pub(crate) fn begin_command<'a>(buffer: &'a mut [u8], name: &[u8]) -> (b: CommandBuilder<
    'a,
    at_commands::builder::Set,
>)
    requires
        name@.len() + 3 <= usize::MAX,
    ensures
        holds(b, head_pieces(true, name@), old(buffer)@),
        joined(head_pieces(true, name@)) == command_head(true, name@),
        final(buffer)@ == builder_outcome(b),
{
    let b = set_command(buffer, true, name);
    proof {
        let pieces = head_pieces(true, name@);
        reveal_with_fuel(joined, 4);
        assert(pieces.drop_first() =~= seq![name@, equals_sign()]);
        assert(pieces.drop_first().drop_first() =~= seq![equals_sign()]);
        assert(joined(pieces) =~= command_head(true, name@));
    }
    b
}

/// Adds an integer parameter to a builder that holds `data`.
pub(crate) fn push_int<'a>(
    b: CommandBuilder<'a, at_commands::builder::Set>,
    value: i32,
    Ghost(data): Ghost<Seq<Seq<u8>>>,
    Ghost(before): Ghost<Seq<u8>>,
) -> (after: CommandBuilder<'a, at_commands::builder::Set>)
    requires
        holds(b, data, before),
        joined(data).len() + int_parameter(value as int).len() <= usize::MAX,
    ensures
        holds(after, data + int_pieces(value as int), before),
        joined(data + int_pieces(value as int)) == joined(data) + int_parameter(value as int),
        builder_outcome(after) == builder_outcome(b),
{
    proof {
        let pieces = int_pieces(value as int);
        reveal_with_fuel(joined, 3);
        assert(pieces.drop_first() =~= seq![comma()]);
        assert(joined(pieces) =~= int_parameter(value as int));
        lemma_joined_add(data, pieces);
        lemma_put_all_add(before, 0, data, pieces);
    }
    with_int_parameter(b, value)
}

/// Adds a quoted string parameter to a builder that holds `data`.
pub(crate) fn push_string<'a>(
    b: CommandBuilder<'a, at_commands::builder::Set>,
    value: &[u8],
    Ghost(data): Ghost<Seq<Seq<u8>>>,
    Ghost(before): Ghost<Seq<u8>>,
) -> (after: CommandBuilder<'a, at_commands::builder::Set>)
    requires
        holds(b, data, before),
        joined(data).len() + string_parameter(value@).len() <= usize::MAX,
    ensures
        holds(after, data + string_pieces(value@), before),
        joined(data + string_pieces(value@)) == joined(data) + string_parameter(value@),
        builder_outcome(after) == builder_outcome(b),
{
    proof {
        let pieces = string_pieces(value@);
        reveal_with_fuel(joined, 5);
        assert(pieces.drop_first() =~= seq![value@, quote(), comma()]);
        assert(pieces.drop_first().drop_first() =~= seq![quote(), comma()]);
        assert(pieces.drop_first().drop_first().drop_first() =~= seq![comma()]);
        assert(joined(pieces) =~= string_parameter(value@));
        lemma_joined_add(data, pieces);
        lemma_put_all_add(before, 0, data, pieces);
    }
    with_string_parameter(b, value)
}

/// Adds a raw parameter to a builder that holds `data`.
pub(crate) fn push_raw<'a>(
    b: CommandBuilder<'a, at_commands::builder::Set>,
    value: &[u8],
    Ghost(data): Ghost<Seq<Seq<u8>>>,
    Ghost(before): Ghost<Seq<u8>>,
) -> (after: CommandBuilder<'a, at_commands::builder::Set>)
    requires
        holds(b, data, before),
        joined(data).len() + raw_parameter(value@).len() <= usize::MAX,
    ensures
        holds(after, data + raw_pieces(value@), before),
        joined(data + raw_pieces(value@)) == joined(data) + raw_parameter(value@),
        builder_outcome(after) == builder_outcome(b),
{
    proof {
        let pieces = raw_pieces(value@);
        reveal_with_fuel(joined, 3);
        assert(pieces.drop_first() =~= seq![comma()]);
        assert(joined(pieces) =~= raw_parameter(value@));
        lemma_joined_add(data, pieces);
        lemma_put_all_add(before, 0, data, pieces);
    }
    with_raw_parameter(b, value)
}

/// Closes a builder that holds the pieces `data` of a parameter list. The
/// command comes back where it fits; where it does not, the position that
/// the builder reports is turned into the number of bytes that are missing.
pub(crate) fn close_command<'a>(
    b: CommandBuilder<'a, at_commands::builder::Set>,
    room: usize,
    Ghost(data): Ghost<Seq<Seq<u8>>>,
    Ghost(before): Ghost<Seq<u8>>,
) -> (r: Result<&'a [u8], usize>)
    requires
        holds(b, data, before),
        before.len() == room,
        joined(data).len() >= 1,
        joined(data).last() == 44u8,
        joined(data).len() + 2 <= usize::MAX,
    ensures
        encoded_as(r, closed(joined(data)), room as nat),
        left_with(before, builder_outcome(b), closed(joined(data))),
        builder_outcome(b) == written(before, data),
{
    let ghost text = joined(data);
    let ghost buffer = builder_buffer(b);
    let ghost at = closing_position(buffer, text.len());
    proof {
        lemma_put_all_fits(before, 0, data);
        if text.len() <= before.len() {
            assert(buffer =~= text + before.skip(text.len() as int));
            assert(buffer[text.len() - 1] == text.last());
            assert(at == text.len() - 1);
            if at + 2 <= buffer.len() {
                assert(put(buffer, at, line_end()).take((at + 2) as int) =~= closed(text));
                assert(buffer.skip((at + 2) as int) =~= before.skip(closed(text).len() as int));
                assert(put(buffer, at, line_end()) =~= closed(text) + buffer.skip(
                    (at + 2) as int,
                ));
            }
        }
    }
    match finish(b) {
        Ok(bytes) => Ok(bytes),
        Err(reached) => {
            // Past the end of the buffer the builder keeps the last comma in
            // its count, so the count is one more than the command's length,
            // except where only the line ending did not fit.
            let over: usize = reached - room;
            if over == 1 {
                Err(1)
            } else {
                Err(over - 1)
            }
        },
    }
}

} // verus!
