//! The commands that make, connect, feed and close a socket on the modem.

use vstd::prelude::*;
use vstd::string::is_ascii_spec_bytes;
use vstd::string::StringSliceAdditionalSpecFns;
use crate::at_command::AtRequest;
use crate::at_command::AtResponse;
use crate::command_builder::close_command;
use crate::command_builder::closed;
use crate::command_builder::comma;
use crate::command_builder::command_head;
use crate::command_builder::head_pieces;
use crate::command_builder::int_parameter;
use crate::command_builder::int_pieces;
use crate::command_builder::joined;
use crate::command_builder::line_end;
use crate::command_builder::quote;
use crate::command_builder::begin_command;
use crate::command_builder::push_int;
use crate::command_builder::push_raw;
use crate::command_builder::push_string;
use crate::command_builder::raw_parameter;
use crate::command_builder::raw_pieces;
use crate::command_builder::string_parameter;
use crate::command_builder::string_pieces;
use crate::reply_parser::after_int;
use crate::reply_parser::in_class;
use crate::reply_parser::int_text;
use crate::reply_parser::int_text_value;
use crate::reply_parser::leading;
use crate::reply_parser::lemma_leading;
use crate::reply_parser::lemma_leading_run;
use crate::reply_parser::read_identifier;
use crate::reply_parser::read_tagged_int;
use crate::reply_parser::skip_spaces;
use crate::reply_parser::tagged_int;
use crate::reply_parser::ByteClass;
use crate::text::all_digits;
use crate::text::decimal;
use crate::text::decimal_at;
use crate::text::decimal_len;
use crate::text::is_digit;
use crate::text::lemma_decimal_digits;
use crate::text::lemma_decimal_len;
use crate::text::lemma_decimal_value;
use crate::text::lemma_signed_decimal_len;
use crate::text::signed_decimal;
use crate::AtError;

verus! {

/// Domain for the socket connection
#[derive(Clone, Copy)]
pub enum Domain {
    IPv4,
    IPv6,
}

impl Domain {
    /// The number that stands for the domain on the wire.
    pub open spec fn wire_code(self) -> u8 {
        match self {
            Domain::IPv4 => 1,
            Domain::IPv6 => 2,
        }
    }

    /// The number that stands for the domain on the wire.
    pub fn code(self) -> (c: u8)
        ensures
            c == self.wire_code(),
    {
        match self {
            Domain::IPv4 => 1,
            Domain::IPv6 => 2,
        }
    }
}

/// Indicates the type of connection for the socket
#[derive(Clone, Copy)]
pub enum Type {
    TCP,
    UPD,
    RAW,
}

impl Type {
    /// The number that stands for the connection type on the wire.
    pub open spec fn wire_code(self) -> u8 {
        match self {
            Type::TCP => 1,
            Type::UPD => 2,
            Type::RAW => 3,
        }
    }

    /// The number that stands for the connection type on the wire.
    pub fn code(self) -> (c: u8)
        ensures
            c == self.wire_code(),
    {
        match self {
            Type::TCP => 1,
            Type::UPD => 2,
            Type::RAW => 3,
        }
    }
}

/// Indicates the underlying protocol used for the socket
#[derive(Clone, Copy)]
pub enum Protocol {
    IP,
    ICMP,
    UDPLITE,
}

impl Protocol {
    /// The number that stands for the protocol on the wire.
    pub open spec fn wire_code(self) -> u8 {
        match self {
            Protocol::IP => 1,
            Protocol::ICMP => 2,
            Protocol::UDPLITE => 3,
        }
    }

    /// The number that stands for the protocol on the wire.
    pub fn code(self) -> (c: u8)
        ensures
            c == self.wire_code(),
    {
        match self {
            Protocol::IP => 1,
            Protocol::ICMP => 2,
            Protocol::UDPLITE => 3,
        }
    }
}

/// The name of the command that creates a socket: `+CSOC`.
pub open spec fn create_name() -> Seq<u8> {
    seq![43u8, 67u8, 83u8, 79u8, 67u8]
}

/// The front of the reply to a created socket: `+CSOC: `.
pub open spec fn created_prefix() -> Seq<u8> {
    seq![43u8, 67u8, 83u8, 79u8, 67u8, 58u8, 32u8]
}

/// The end of the reply to a created socket: two line endings, then `OK`
/// and a line ending.
pub open spec fn created_end() -> Seq<u8> {
    seq![13u8, 10u8, 13u8, 10u8, 79u8, 75u8, 13u8, 10u8]
}

/// The reply that acknowledges a command: `OK` and a line ending.
pub open spec fn ok_line() -> Seq<u8> {
    seq![79u8, 75u8, 13u8, 10u8]
}

/// The reply that the modem gives when it has made the socket `id`:
/// `+CSOC: `, the decimal text of `id`, and the end of the reply.
pub open spec fn created_reply(id: u8) -> Seq<u8> {
    created_prefix() + decimal(id as nat) + created_end()
}

/// Whether `data` is the reply to a created socket, for some identifier
/// from 0 to 255, and nothing else.
pub open spec fn is_created_reply(data: Seq<u8>) -> bool {
    exists|id: u8| data == #[trigger] created_reply(id)
}

/// Whether a reply acknowledges a command: it is `OK` and a line ending,
/// and nothing else.
pub open spec fn acknowledged(data: Seq<u8>) -> bool {
    data == ok_line()
}

/// Reads a reply that has to be a bare acknowledgement.
pub fn read_acknowledgement(data: &[u8]) -> (r: Result<AtResponse, AtError>)
    ensures
        r == if acknowledged(data@) {
            Ok::<AtResponse, AtError>(AtResponse::Acknowledged)
        } else {
            Err::<AtResponse, AtError>(AtError::MalformedReply)
        },
{
    let line = "OK\r\n".as_bytes();
    proof {
        reveal_strlit("OK\r\n");
        is_ascii_spec_bytes("OK\r\n");
        assert(line@ =~= ok_line());
    }
    match read_identifier(data, line) {
        Ok(_) => {
            // The parser has matched the front of the reply only.
            if data.len() == line.len() {
                assert(data@ =~= data@.subrange(0, line@.len() as int));
                Ok(AtResponse::Acknowledged)
            } else {
                Err(AtError::MalformedReply)
            }
        },
        Err(e) => {
            assert(ok_line() =~= ok_line().subrange(0, ok_line().len() as int));
            Err(e)
        },
    }
}

/// The parser reads the reply to a created socket as that socket's number.
pub proof fn lemma_created_reply_parses(id: u8)
    ensures
        tagged_int(created_reply(id), created_prefix(), created_end()) == Some(id as i32),
{
    let number = decimal(id as nat);
    let data = created_reply(id);
    lemma_decimal_digits(id as nat);
    lemma_decimal_len(id as nat);
    lemma_decimal_value(id as nat);
    let behind = data.skip(created_prefix().len() as int);
    assert(behind =~= number + created_end());
    assert(created_prefix() =~= data.subrange(0, created_prefix().len() as int));
    assert(is_digit(number[0]));
    assert(behind[0] == number[0]);
    lemma_leading(behind, ByteClass::Space, 0);
    assert(skip_spaces(behind) =~= behind);
    assert forall|i: int| 0 <= i < number.len() implies in_class(
        ByteClass::Numeric,
        #[trigger] behind[i],
    ) by {
        assert(behind[i] == number[i]);
    }
    assert(behind[number.len() as int] == created_end()[0]);
    lemma_leading(behind, ByteClass::Numeric, number.len());
    assert(behind.take(number.len() as int) =~= number);
    assert(int_text(behind) == number);
    assert(int_text_value(number) == Some(id as int));
    assert(behind.skip(number.len() as int) =~= created_end());
    lemma_leading(created_end(), ByteClass::Space, 0);
    assert(skip_spaces(created_end()) =~= created_end());
    assert(after_int(behind) == created_end());
    assert(created_end() =~= created_end().subrange(0, created_end().len() as int));
}

/// A reply that the parser reads, that holds the decimal text of `id` right
/// behind its front, and that is as long as the reply to the socket `id`, is
/// that reply.
pub proof fn lemma_created_reply_exact(data: Seq<u8>, id: u8)
    requires
        tagged_int(data, created_prefix(), created_end()) is Some,
        data.len() == created_reply(id).len(),
        decimal(id as nat).is_prefix_of(data.skip(created_prefix().len() as int)),
    ensures
        data == created_reply(id),
{
    let number = decimal(id as nat);
    lemma_decimal_digits(id as nat);
    let front = created_prefix().len() as int;
    let first = data.skip(front);
    assert forall|i: int| 0 <= i < number.len() implies is_digit(#[trigger] first[i]) by {
        assert(first.subrange(0, number.len() as int)[i] == number[i]);
        assert(is_digit(number[i]));
    }
    assert(is_digit(first[0]));
    lemma_leading(first, ByteClass::Space, 0);
    assert(skip_spaces(first) =~= first);
    lemma_leading_run(first, ByteClass::Numeric);
    let run = leading(first, ByteClass::Numeric) as int;
    if run < number.len() {
        assert(in_class(ByteClass::Numeric, first[run]));
    }
    let past = if run < first.len() && first[run] == 44u8 {
        run + 1
    } else {
        run
    };
    let second = first.skip(past);
    lemma_leading_run(second, ByteClass::Space);
    assert(after_int(first) == skip_spaces(second));
    assert(skip_spaces(second).len() >= created_end().len());
    assert(past == number.len());
    assert(leading(second, ByteClass::Space) == 0);
    assert(skip_spaces(second) =~= second);
    assert(second =~= created_end());
    assert(data =~= created_reply(id));
}

/// AT command to create a socket
pub struct CreateSocket {
    /// Type of IP connection that will be used
    pub domain: Domain,
    /// Communication type that will be used
    pub connection_type: Type,
    /// Underlying communication protocol that will be used
    pub protocol: Protocol,
    /// PDP context to use; the modem's default where there is none
    pub cid: Option<i32>,
}

impl AtRequest for CreateSocket {
    open spec fn encodable(&self) -> bool {
        true
    }

    /// `AT+CSOC=`, then domain, connection type and protocol with commas
    /// between them, then a comma and the PDP context only where there is
    /// one, then the line ending.
    open spec fn wire_form(&self) -> Seq<u8> {
        command_head(true, create_name()) + signed_decimal(self.domain.wire_code() as int)
            + comma() + signed_decimal(self.connection_type.wire_code() as int) + comma()
            + signed_decimal(self.protocol.wire_code() as int) + (match self.cid {
            Some(cid) => comma() + signed_decimal(cid as int),
            None => Seq::<u8>::empty(),
        }) + line_end()
    }

    open spec fn pieces(&self) -> Seq<Seq<u8>> {
        head_pieces(true, create_name()) + int_pieces(self.domain.wire_code() as int)
            + int_pieces(self.connection_type.wire_code() as int) + int_pieces(
            self.protocol.wire_code() as int,
        ) + match self.cid {
            Some(cid) => int_pieces(cid as int),
            None => Seq::<Seq<u8>>::empty(),
        }
    }

    fn can_encode(&self) -> (r: bool) {
        true
    }

    fn get_command<'a>(&'a self, buffer: &'a mut [u8]) -> (r: Result<&'a [u8], usize>) {
        let room = buffer.len();
        let ghost before = buffer@;
        let name = "+CSOC".as_bytes();
        proof {
            reveal_strlit("+CSOC");
            is_ascii_spec_bytes("+CSOC");
            assert(name@ =~= create_name());
            lemma_signed_decimal_len(self.domain.wire_code() as int);
            lemma_signed_decimal_len(self.connection_type.wire_code() as int);
            lemma_signed_decimal_len(self.protocol.wire_code() as int);
        }
        let builder = begin_command(buffer, name);
        let ghost head = head_pieces(true, create_name());
        let builder = push_int(builder, self.domain.code() as i32, Ghost(head), Ghost(before));
        let ghost first = head + int_pieces(self.domain.wire_code() as int);
        let builder = push_int(builder, self.connection_type.code() as i32, Ghost(first), Ghost(before));
        let ghost second = first + int_pieces(self.connection_type.wire_code() as int);
        let builder = push_int(builder, self.protocol.code() as i32, Ghost(second), Ghost(before));
        let ghost third = second + int_pieces(self.protocol.wire_code() as int);
        match self.cid {
            Some(cid) => {
                proof {
                    lemma_signed_decimal_len(cid as int);
                }
                let builder = push_int(builder, cid, Ghost(third), Ghost(before));
                let ghost fourth = third + int_pieces(cid as int);
                assert(closed(joined(fourth)) =~= self.wire_form());
                assert(fourth =~= self.pieces());
                close_command(builder, room, Ghost(fourth), Ghost(before))
            },
            None => {
                assert(closed(joined(third)) =~= self.wire_form());
                assert(third =~= self.pieces());
                close_command(builder, room, Ghost(third), Ghost(before))
            },
        }
    }

    fn parse_response(&self, data: &[u8]) -> (r: Result<AtResponse, AtError>)
        ensures
            r is Ok <==> is_created_reply(data@),
            forall|id: u8|
                data@ == #[trigger] created_reply(id) ==> r == Ok::<AtResponse, AtError>(
                    AtResponse::SocketCreated(id),
                ),
            r is Err ==> r == Err::<AtResponse, AtError>(AtError::MalformedReply),
    {
        let prefix = "+CSOC: ".as_bytes();
        let end = "\r\n\r\nOK\r\n".as_bytes();
        proof {
            reveal_strlit("+CSOC: ");
            is_ascii_spec_bytes("+CSOC: ");
            assert(prefix@ =~= created_prefix());
            reveal_strlit("\r\n\r\nOK\r\n");
            is_ascii_spec_bytes("\r\n\r\nOK\r\n");
            assert(end@ =~= created_end());
            assert forall|id: u8| data@ == #[trigger] created_reply(id) implies tagged_int(
                data@,
                created_prefix(),
                created_end(),
            ) == Some(id as i32) by {
                lemma_created_reply_parses(id);
            }
        }
        match read_tagged_int(data, prefix, end) {
            Ok(number) => {
                if number < 0 || number > 255 {
                    return Err(AtError::MalformedReply);
                }
                let socket_id = number as u8;
                // The parser takes more than one way to write a number and
                // does not look behind the end of the reply: only the
                // number's plain decimal text, in a reply of that length, is
                // a socket's reply.
                let digits = decimal_len(socket_id as u16);
                if data.len() == prefix.len() + digits + end.len() && decimal_at(
                    data,
                    prefix.len(),
                    socket_id,
                ) {
                    proof {
                        lemma_created_reply_exact(data@, socket_id);
                    }
                    Ok(AtResponse::SocketCreated(socket_id))
                } else {
                    Err(AtError::MalformedReply)
                }
            },
            Err(e) => Err(e),
        }
    }
}

/// The name of the command that connects a socket: `+CSOCON`.
pub open spec fn connect_name() -> Seq<u8> {
    seq![43u8, 67u8, 83u8, 79u8, 67u8, 79u8, 78u8]
}

/// Command to connect the socket to a remote address
pub struct ConnectSocketToRemote<'a> {
    /// Socket ID obtained by using [CreateSocket]
    pub socket_id: u8,
    /// Port to be used in the communication
    pub port: u16,
    /// Address of the server which we want to connect to
    pub remote_address: &'a str,
    /// Communication type that will be used
    pub connection_type: Type,
}

impl AtRequest for ConnectSocketToRemote<'_> {
    /// The port is not 0, and the command is short enough for its length to
    /// be counted.
    open spec fn encodable(&self) -> bool {
        &&& self.port > 0
        &&& self.wire_form().len() < usize::MAX
    }

    /// `AT+CSOCON=`, then socket, port, the bytes of the address between
    /// double quotes, and the connection type, with commas between them,
    /// then the line ending.
    open spec fn wire_form(&self) -> Seq<u8> {
        command_head(true, connect_name()) + signed_decimal(self.socket_id as int) + comma()
            + signed_decimal(self.port as int) + comma() + quote()
            + self.remote_address.spec_bytes() + quote() + comma() + signed_decimal(
            self.connection_type.wire_code() as int,
        ) + line_end()
    }

    open spec fn pieces(&self) -> Seq<Seq<u8>> {
        head_pieces(true, connect_name()) + int_pieces(self.socket_id as int) + int_pieces(
            self.port as int,
        ) + string_pieces(self.remote_address.spec_bytes()) + int_pieces(
            self.connection_type.wire_code() as int,
        )
    }

    fn can_encode(&self) -> (r: bool) {
        proof {
            lemma_decimal_len(self.connection_type.wire_code() as nat);
            assert(self.wire_form().len() == self.remote_address.spec_bytes().len() + decimal(
                self.socket_id as nat,
            ).len() + decimal(self.port as nat).len() + 18);
        }
        // What the command holds besides the address: its name with `AT` and
        // `=`, the three numbers, three commas, two quotes, the line ending.
        let fixed: usize = 18 + decimal_len(self.socket_id as u16) + decimal_len(self.port);
        self.port > 0 && self.remote_address.as_bytes().len() < usize::MAX - fixed
    }

    fn get_command<'a>(&'a self, buffer: &'a mut [u8]) -> (r: Result<&'a [u8], usize>) {
        let room = buffer.len();
        let ghost before = buffer@;
        let name = "+CSOCON".as_bytes();
        let address = self.remote_address.as_bytes();
        proof {
            reveal_strlit("+CSOCON");
            is_ascii_spec_bytes("+CSOCON");
            assert(name@ =~= connect_name());
            lemma_signed_decimal_len(self.socket_id as int);
            lemma_signed_decimal_len(self.port as int);
            lemma_signed_decimal_len(self.connection_type.wire_code() as int);
        }
        let builder = begin_command(buffer, name);
        let ghost head = head_pieces(true, connect_name());
        let builder = push_int(builder, self.socket_id as i32, Ghost(head), Ghost(before));
        let ghost first = head + int_pieces(self.socket_id as int);
        let builder = push_int(builder, self.port as i32, Ghost(first), Ghost(before));
        let ghost second = first + int_pieces(self.port as int);
        let builder = push_string(builder, address, Ghost(second), Ghost(before));
        let ghost third = second + string_pieces(address@);
        let builder = push_int(builder, self.connection_type.code() as i32, Ghost(third), Ghost(before));
        let ghost fourth = third + int_pieces(self.connection_type.wire_code() as int);
        assert(closed(joined(fourth)) =~= self.wire_form());
        assert(fourth =~= self.pieces());
        close_command(builder, room, Ghost(fourth), Ghost(before))
    }

    fn parse_response(&self, data: &[u8]) -> (r: Result<AtResponse, AtError>)
        ensures
            r == if acknowledged(data@) {
                Ok::<AtResponse, AtError>(AtResponse::Acknowledged)
            } else {
                Err::<AtResponse, AtError>(AtError::MalformedReply)
            },
    {
        read_acknowledgement(data)
    }
}

/// The name of the command that sends data through a socket: `+CSOSEND`.
pub open spec fn send_name() -> Seq<u8> {
    seq![43u8, 67u8, 83u8, 79u8, 83u8, 69u8, 78u8, 68u8]
}

/// Struct used to send data through the socket
pub struct SendSocketMessage<'a> {
    /// Socket ID obtained by using [CreateSocket]
    pub socket_id: u8,
    /// Length of the data we want to send
    pub data_len: u16,
    /// Data to be send
    pub data: &'a [u8],
}

impl<'a> SendSocketMessage<'a> {
    /// Whether the length that the command announces is the length of its
    /// data.
    pub open spec fn well_formed(&self) -> bool {
        self.data_len == self.data@.len()
    }

    /// The command that sends `data` through the socket `socket_id`, if the
    /// length of the data can be announced in 16 bits.
    pub fn new(socket_id: u8, data: &'a [u8]) -> (command: Option<Self>)
        ensures
            command is Some <==> data@.len() <= u16::MAX,
            command matches Some(c) ==> c.well_formed() && c.socket_id == socket_id && c.data@
                == data@,
    {
        if data.len() <= u16::MAX as usize {
            Some(SendSocketMessage { socket_id, data_len: data.len() as u16, data })
        } else {
            None
        }
    }
}

impl AtRequest for SendSocketMessage<'_> {
    /// The announced length is the length of the data.
    open spec fn encodable(&self) -> bool {
        self.well_formed()
    }

    /// `AT+CSOSEND=`, then socket, announced length and the data as they
    /// are, with commas between them, then the line ending.
    open spec fn wire_form(&self) -> Seq<u8> {
        command_head(true, send_name()) + signed_decimal(self.socket_id as int) + comma()
            + signed_decimal(self.data_len as int) + comma() + self.data@ + line_end()
    }

    open spec fn pieces(&self) -> Seq<Seq<u8>> {
        head_pieces(true, send_name()) + int_pieces(self.socket_id as int) + int_pieces(
            self.data_len as int,
        ) + raw_pieces(self.data@)
    }

    fn can_encode(&self) -> (r: bool) {
        self.data_len as usize == self.data.len()
    }

    fn get_command<'a>(&'a self, buffer: &'a mut [u8]) -> (r: Result<&'a [u8], usize>) {
        let room = buffer.len();
        let ghost before = buffer@;
        let name = "+CSOSEND".as_bytes();
        proof {
            reveal_strlit("+CSOSEND");
            is_ascii_spec_bytes("+CSOSEND");
            assert(name@ =~= send_name());
            lemma_signed_decimal_len(self.socket_id as int);
            lemma_signed_decimal_len(self.data_len as int);
        }
        let builder = begin_command(buffer, name);
        let ghost head = head_pieces(true, send_name());
        let builder = push_int(builder, self.socket_id as i32, Ghost(head), Ghost(before));
        let ghost first = head + int_pieces(self.socket_id as int);
        let builder = push_int(builder, self.data_len as i32, Ghost(first), Ghost(before));
        let ghost second = first + int_pieces(self.data_len as int);
        let builder = push_raw(builder, self.data, Ghost(second), Ghost(before));
        let ghost third = second + raw_pieces(self.data@);
        assert(closed(joined(third)) =~= self.wire_form());
        assert(third =~= self.pieces());
        close_command(builder, room, Ghost(third), Ghost(before))
    }

    fn parse_response(&self, data: &[u8]) -> (r: Result<AtResponse, AtError>)
        ensures
            r == if acknowledged(data@) {
                Ok::<AtResponse, AtError>(AtResponse::Acknowledged)
            } else {
                Err::<AtResponse, AtError>(AtError::MalformedReply)
            },
    {
        read_acknowledgement(data)
    }
}

/// The name of the command that closes a socket: `+CSOCL`.
pub open spec fn close_name() -> Seq<u8> {
    seq![43u8, 67u8, 83u8, 79u8, 67u8, 76u8]
}

/// Closes the opened TCP socket
pub struct CloseSocket {
    /// Socket ID obtained by using [CreateSocket]
    pub socket_id: u8,
}

impl AtRequest for CloseSocket {
    open spec fn encodable(&self) -> bool {
        true
    }

    /// `AT+CSOCL=`, then the socket, then the line ending.
    open spec fn wire_form(&self) -> Seq<u8> {
        command_head(true, close_name()) + signed_decimal(self.socket_id as int) + line_end()
    }

    open spec fn pieces(&self) -> Seq<Seq<u8>> {
        head_pieces(true, close_name()) + int_pieces(self.socket_id as int)
    }

    fn can_encode(&self) -> (r: bool) {
        true
    }

    fn get_command<'a>(&'a self, buffer: &'a mut [u8]) -> (r: Result<&'a [u8], usize>) {
        let room = buffer.len();
        let ghost before = buffer@;
        let name = "+CSOCL".as_bytes();
        proof {
            reveal_strlit("+CSOCL");
            is_ascii_spec_bytes("+CSOCL");
            assert(name@ =~= close_name());
            lemma_signed_decimal_len(self.socket_id as int);
        }
        let builder = begin_command(buffer, name);
        let ghost head = head_pieces(true, close_name());
        let builder = push_int(builder, self.socket_id as i32, Ghost(head), Ghost(before));
        let ghost first = head + int_pieces(self.socket_id as int);
        assert(closed(joined(first)) =~= self.wire_form());
        assert(first =~= self.pieces());
        close_command(builder, room, Ghost(first), Ghost(before))
    }
}

/// The digit that a code from 1 to 9 is written as.
pub open spec fn code_digit(code: u8) -> u8 {
    (48 + code) as u8
}

/// Without a PDP context the command to create a socket is `AT+CSOC=`, three
/// digits with two commas between them, and the line ending: nothing stands
/// for the context, neither a value nor a comma.
pub proof fn lemma_create_without_context(command: CreateSocket)
    requires
        command.cid is None,
    ensures
        command.wire_form() == seq![
            65u8,
            84u8,
            43u8,
            67u8,
            83u8,
            79u8,
            67u8,
            61u8,
            code_digit(command.domain.wire_code()),
            44u8,
            code_digit(command.connection_type.wire_code()),
            44u8,
            code_digit(command.protocol.wire_code()),
            13u8,
            10u8,
        ],
{
    assert(command.wire_form() =~= seq![
        65u8,
        84u8,
        43u8,
        67u8,
        83u8,
        79u8,
        67u8,
        61u8,
        code_digit(command.domain.wire_code()),
        44u8,
        code_digit(command.connection_type.wire_code()),
        44u8,
        code_digit(command.protocol.wire_code()),
        13u8,
        10u8,
    ]);
}

/// With a PDP context the command to create a socket is the command without
/// one, with a comma and the decimal text of the context put in before the
/// line ending.
pub proof fn lemma_create_with_context(command: CreateSocket, context: i32)
    requires
        command.cid == Some(context),
    ensures
        command.wire_form() == (CreateSocket {
            domain: command.domain,
            connection_type: command.connection_type,
            protocol: command.protocol,
            cid: None,
        }).wire_form().drop_last().drop_last() + comma() + signed_decimal(context as int)
            + line_end(),
{
    let bare = CreateSocket {
        domain: command.domain,
        connection_type: command.connection_type,
        protocol: command.protocol,
        cid: None,
    };
    let front = command_head(true, create_name()) + signed_decimal(
        command.domain.wire_code() as int,
    ) + comma() + signed_decimal(command.connection_type.wire_code() as int) + comma()
        + signed_decimal(command.protocol.wire_code() as int);
    assert(bare.wire_form() =~= front + line_end());
    assert(bare.wire_form().drop_last().drop_last() =~= front);
    assert(command.wire_form() =~= front + comma() + signed_decimal(context as int)
        + line_end());
}

/// A command to connect with the port 0 may not be encoded.
pub proof fn lemma_port_zero_not_encodable(command: ConnectSocketToRemote<'_>)
    requires
        command.port == 0,
    ensures
        !command.encodable(),
{
}

/// A command to connect is made of its fields in their order: socket, port,
/// quoted address, connection type.
pub proof fn lemma_connect_wire_form(command: ConnectSocketToRemote<'_>)
    ensures
        command.wire_form() == seq![65u8, 84u8] + connect_name() + seq![61u8] + decimal(
            command.socket_id as nat,
        ) + seq![44u8] + decimal(command.port as nat) + seq![44u8, 34u8]
            + command.remote_address.spec_bytes() + seq![34u8, 44u8, code_digit(
            command.connection_type.wire_code(),
        ), 13u8, 10u8],
{
    assert(command.wire_form() =~= seq![65u8, 84u8] + connect_name() + seq![61u8] + decimal(
        command.socket_id as nat,
    ) + seq![44u8] + decimal(command.port as nat) + seq![44u8, 34u8]
        + command.remote_address.spec_bytes() + seq![34u8, 44u8, code_digit(
        command.connection_type.wire_code(),
    ), 13u8, 10u8]);
}

/// A command to send is made of its fields in their order: socket, length
/// of the data, and the data themselves, which are neither quoted nor
/// changed.
pub proof fn lemma_send_wire_form(command: SendSocketMessage<'_>)
    requires
        command.well_formed(),
    ensures
        command.wire_form() == seq![65u8, 84u8] + send_name() + seq![61u8] + decimal(
            command.socket_id as nat,
        ) + seq![44u8] + decimal(command.data@.len()) + seq![44u8] + command.data@ + seq![
            13u8,
            10u8,
        ],
{
    assert(command.wire_form() =~= seq![65u8, 84u8] + send_name() + seq![61u8] + decimal(
        command.socket_id as nat,
    ) + seq![44u8] + decimal(command.data@.len()) + seq![44u8] + command.data@ + seq![
        13u8,
        10u8,
    ]);
}

/// A command to close a socket is `AT+CSOCL=`, the socket and the line
/// ending.
pub proof fn lemma_close_wire_form(command: CloseSocket)
    ensures
        command.wire_form() == seq![65u8, 84u8, 43u8, 67u8, 83u8, 79u8, 67u8, 76u8, 61u8]
            + decimal(command.socket_id as nat) + seq![13u8, 10u8],
{
    assert(command.wire_form() =~= seq![65u8, 84u8, 43u8, 67u8, 83u8, 79u8, 67u8, 76u8, 61u8]
        + decimal(command.socket_id as nat) + seq![13u8, 10u8]);
}

/// The reply to a created socket is one for every identifier, so reading it
/// never fails.
pub proof fn lemma_created_reply_is_read(id: u8)
    ensures
        is_created_reply(created_reply(id)),
{
}

/// A reply to a created socket names one socket only.
pub proof fn lemma_created_reply_names_one_socket(first: u8, second: u8)
    requires
        created_reply(first) == created_reply(second),
    ensures
        first == second,
{
    lemma_created_reply_parses(first);
    lemma_created_reply_parses(second);
}

/// A reply to a created socket begins with `+CSOC: `, ends with the end of
/// the reply, and has one to three digits between them.
pub proof fn lemma_created_reply_shape(data: Seq<u8>)
    requires
        is_created_reply(data),
    ensures
        created_prefix().is_prefix_of(data),
        created_prefix().len() + 1 + created_end().len() <= data.len() <= created_prefix().len()
            + 3 + created_end().len(),
        data.skip(data.len() - created_end().len()) == created_end(),
        all_digits(
            data.subrange(created_prefix().len() as int, data.len() - created_end().len()),
        ),
{
    let id = choose|id: u8| data == #[trigger] created_reply(id);
    let number = decimal(id as nat);
    lemma_decimal_digits(id as nat);
    lemma_decimal_len(id as nat);
    assert(created_prefix() =~= data.subrange(0, created_prefix().len() as int));
    assert(data.skip(data.len() - created_end().len()) =~= created_end());
    assert(data.subrange(created_prefix().len() as int, data.len() - created_end().len())
        =~= number);
}

/// No reply to a created socket is one with its end cut off, wherever the
/// cut lies.
pub proof fn lemma_created_reply_truncated(id: u8, kept: nat)
    requires
        kept < created_reply(id).len(),
    ensures
        !is_created_reply(created_reply(id).take(kept as int)),
{
    let number = decimal(id as nat);
    let data = created_reply(id).take(kept as int);
    lemma_decimal_digits(id as nat);
    let front = created_prefix().len();
    if kept >= front {
        let behind = data.skip(front as int);
        if kept <= front + number.len() {
            // The cut lies in the number: nothing is left behind it.
            assert(behind =~= number.take(kept - front));
            assert forall|i: int| 0 <= i < behind.len() implies in_class(
                ByteClass::Numeric,
                #[trigger] behind[i],
            ) by {
                assert(behind[i] == number[i]);
            }
            if behind.len() > 0 {
                assert(is_digit(number[0]));
                assert(behind[0] == number[0]);
            }
            lemma_leading(behind, ByteClass::Space, 0);
            assert(skip_spaces(behind) =~= behind);
            lemma_leading(behind, ByteClass::Numeric, behind.len());
            let nothing = behind.skip(behind.len() as int);
            lemma_leading(nothing, ByteClass::Space, 0);
            assert(skip_spaces(nothing) =~= nothing);
            assert(after_int(behind).len() == 0);
        } else {
            // The cut lies in the end of the reply: what is left is too short.
            let tail = created_end().take(kept - front - number.len());
            assert(behind =~= number + tail);
            assert(is_digit(number[0]));
            assert(behind[0] == number[0]);
            lemma_leading(behind, ByteClass::Space, 0);
            assert(skip_spaces(behind) =~= behind);
            assert forall|i: int| 0 <= i < number.len() implies in_class(
                ByteClass::Numeric,
                #[trigger] behind[i],
            ) by {
                assert(behind[i] == number[i]);
            }
            assert(behind[number.len() as int] == tail[0]);
            lemma_leading(behind, ByteClass::Numeric, number.len());
            assert(behind.skip(number.len() as int) =~= tail);
            lemma_leading(tail, ByteClass::Space, 0);
            assert(skip_spaces(tail) =~= tail);
            assert(after_int(behind) == tail);
        }
    }
    assert(tagged_int(data, created_prefix(), created_end()) is None);
    assert forall|other: u8| data != #[trigger] created_reply(other) by {
        lemma_created_reply_parses(other);
    }
}

/// The parts of a reply to a created socket make a reply in their order
/// only: put together in any other order they are none.
pub proof fn lemma_created_reply_reordered(id: u8)
    ensures
        !is_created_reply(created_prefix() + created_end() + decimal(id as nat)),
        !is_created_reply(decimal(id as nat) + created_prefix() + created_end()),
        !is_created_reply(decimal(id as nat) + created_end() + created_prefix()),
        !is_created_reply(created_end() + created_prefix() + decimal(id as nat)),
        !is_created_reply(created_end() + decimal(id as nat) + created_prefix()),
{
    let number = decimal(id as nat);
    lemma_decimal_digits(id as nat);
    assert(is_digit(number[0]));
    assert forall|other: u8|
        created_prefix().is_prefix_of(#[trigger] created_reply(other)) && created_reply(
            other,
        ).skip(created_reply(other).len() - created_end().len()) == created_end() by {
        assert(is_created_reply(created_reply(other)));
        lemma_created_reply_shape(created_reply(other));
    }
    // Four of them do not begin as a reply begins.
    let a = number + created_prefix() + created_end();
    assert(a.subrange(0, created_prefix().len() as int)[0] == number[0]);
    let b = number + created_end() + created_prefix();
    assert(b.subrange(0, created_prefix().len() as int)[0] == number[0]);
    let c = created_end() + created_prefix() + number;
    assert(c.subrange(0, created_prefix().len() as int)[0] == created_end()[0]);
    let d = created_end() + number + created_prefix();
    assert(d.subrange(0, created_prefix().len() as int)[0] == created_end()[0]);
    // The fifth does not end as a reply ends.
    let e = created_prefix() + created_end() + number;
    assert(e.skip(e.len() - created_end().len())[created_end().len() - 1] == number.last());
    assert(is_digit(number.last()));
}

/// `OK` and a line ending is an acknowledgement, and nothing else is:
/// neither a part of it, nor those bytes with more behind them.
pub proof fn lemma_acknowledgement_exact(data: Seq<u8>)
    ensures
        acknowledged(ok_line()),
        acknowledged(data) <==> data.len() == 4 && data[0] == 79u8 && data[1] == 75u8 && data[2]
            == 13u8 && data[3] == 10u8,
        forall|kept: int| 0 <= kept < ok_line().len() ==> !acknowledged(ok_line().take(kept)),
        data.len() > 0 ==> !acknowledged(ok_line() + data),
{
    if data.len() == 4 && data[0] == 79u8 && data[1] == 75u8 && data[2] == 13u8 && data[3]
        == 10u8 {
        assert(data =~= ok_line());
    }
}

} // verus!
