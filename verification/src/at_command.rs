//! The contract that every command keeps: how it goes onto the wire, and how
//! the reply to it is read.

use vstd::prelude::*;
use crate::command_builder::encoded_as;
use crate::command_builder::left_with;
use crate::command_builder::written;
use crate::AtError;

pub mod socket;

verus! {

/// What the modem answered to a command.
#[derive(Clone, Copy, Debug, PartialEq, Eq, Structural)]
pub enum AtResponse {
    /// The command was carried out; the reply holds nothing more.
    Acknowledged,
    /// A socket was made; the reply holds its identifier.
    SocketCreated(u8),
}

/// A command that can be sent to the modem.
pub trait AtRequest {
    /// Whether the fields form a command that may go onto the wire.
    spec fn encodable(&self) -> bool;

    /// The bytes of the command on the wire, line ending included.
    spec fn wire_form(&self) -> Seq<u8>;

    /// The pieces in which the text of the command is handed to the buffer,
    /// a comma behind each parameter. A piece that does not end inside the
    /// buffer is not written, nor is any piece behind it.
    spec fn pieces(&self) -> Seq<Seq<u8>>;

    /// Whether the fields form a command that may go onto the wire.
    fn can_encode(&self) -> (r: bool)
        ensures
            r == self.encodable(),
    ;

    /// Writes the command to the front of `buffer` and gives back the part
    /// of the buffer that holds it; the bytes behind it stay as they were.
    /// Where the buffer is too short, gives back the number of bytes that
    /// are missing; the buffer then holds the pieces of the command that
    /// fitted.
    fn get_command<'a>(&'a self, buffer: &'a mut [u8]) -> (r: Result<&'a [u8], usize>)
        requires
            self.encodable(),
        ensures
            encoded_as(r, self.wire_form(), old(buffer)@.len()),
            left_with(old(buffer)@, final(buffer)@, self.wire_form()),
            final(buffer)@ == written(old(buffer)@, self.pieces()),
    ;

    /// Reads the reply to the command. A command that does not read its
    /// reply takes any bytes for an acknowledgement.
    fn parse_response(&self, data: &[u8]) -> (r: Result<AtResponse, AtError>)
        default_ensures
            r == Ok::<AtResponse, AtError>(AtResponse::Acknowledged),
    {
        Ok(AtResponse::Acknowledged)
    }
}

/// Encodes `command` into `buffer` if its fields form a command that may go
/// onto the wire. If they do not, nothing is written: the buffer stays as
/// it was, and there is no result.
pub fn encode_checked<'a, C: AtRequest>(command: &'a C, buffer: &'a mut [u8]) -> (r: Option<
    Result<&'a [u8], usize>,
>)
    ensures
        r is Some <==> command.encodable(),
        r is Some ==> encoded_as(r->Some_0, command.wire_form(), old(buffer)@.len()),
        r is Some ==> left_with(old(buffer)@, final(buffer)@, command.wire_form()),
        r is Some ==> final(buffer)@ == written(old(buffer)@, command.pieces()),
        r is None ==> final(buffer)@ == old(buffer)@,
{
    if command.can_encode() {
        Some(command.get_command(buffer))
    } else {
        None
    }
}

/// Encoding is repeatable: what a command gives for a buffer, and what it
/// leaves in the buffer, depends on the command and on what the buffer held.
/// What it gives depends on no more of the buffer than its length.
pub proof fn lemma_encoding_repeats<C: AtRequest>(
    command: &C,
    before_first: Seq<u8>,
    before_second: Seq<u8>,
    first: Result<&[u8], usize>,
    second: Result<&[u8], usize>,
    after_first: Seq<u8>,
    after_second: Seq<u8>,
)
    requires
        encoded_as(first, command.wire_form(), before_first.len()),
        encoded_as(second, command.wire_form(), before_second.len()),
        after_first == written(before_first, command.pieces()),
        after_second == written(before_second, command.pieces()),
    ensures
        before_first.len() == before_second.len() ==> {
            &&& first is Ok <==> second is Ok
            &&& first is Ok ==> first->Ok_0@ == second->Ok_0@
            &&& first is Err ==> first->Err_0 == second->Err_0
        },
        before_first == before_second ==> after_first == after_second,
{
}

/// Encoding fails only for want of room, and a buffer that is longer by the
/// number of bytes reported as missing holds the command.
pub proof fn lemma_missing_bytes_suffice<C: AtRequest>(
    command: &C,
    room: nat,
    first: Result<&[u8], usize>,
    second: Result<&[u8], usize>,
)
    requires
        encoded_as(first, command.wire_form(), room),
        first is Err,
        encoded_as(second, command.wire_form(), (room + first->Err_0) as nat),
    ensures
        room < command.wire_form().len(),
        first->Err_0 > 0,
        second is Ok,
        second->Ok_0@ == command.wire_form(),
{
}

} // verus!
