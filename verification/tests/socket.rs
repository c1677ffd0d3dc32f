use modem_socket::at_command::socket::{
    CloseSocket, ConnectSocketToRemote, CreateSocket, Domain, Protocol, SendSocketMessage, Type,
};
use modem_socket::at_command::{encode_checked, AtRequest, AtResponse};
use modem_socket::AtError;

#[test]
fn test_create_socket_command() {
    let mut buffer = [0; 512];

    let create_socket = CreateSocket {
        domain: Domain::IPv4,
        connection_type: Type::TCP,
        protocol: Protocol::IP,
        cid: Some(3),
    };

    let result = create_socket.get_command(&mut buffer).unwrap();

    assert_eq!(core::str::from_utf8(result).unwrap(), "AT+CSOC=1,1,1,3\r\n");
}

#[test]
fn test_create_socket_command_without_cid() {
    let mut buffer = [0; 512];

    let create_socket = CreateSocket {
        domain: Domain::IPv6,
        connection_type: Type::RAW,
        protocol: Protocol::ICMP,
        cid: None,
    };

    let result = create_socket.get_command(&mut buffer).unwrap();

    assert_eq!(core::str::from_utf8(result).unwrap(), "AT+CSOC=2,3,2\r\n");
}

#[test]
fn test_parse_create_socket_response() {
    let create_socket = CreateSocket {
        domain: Domain::IPv4,
        connection_type: Type::TCP,
        protocol: Protocol::IP,
        cid: None,
    };

    // Response example: +CSOC 5\r\n\r\nOK\r\n
    let response = b"+CSOC: 5\r\n\r\nOK\r\n";

    let parsed = create_socket.parse_response(response).unwrap();

    match parsed {
        AtResponse::SocketCreated(id) => assert_eq!(id, 5),
        _ => panic!("Expected AtResponse::SocketCreated"),
    }
}

#[test]
fn test_connect_remote_socket_command() {
    let mut buffer = [0; 512];

    let at_connect_request = ConnectSocketToRemote {
        connection_type: Type::TCP,
        port: 1111,
        socket_id: 1,
        remote_address: "127.0.0.1",
    };

    let result = at_connect_request.get_command(&mut buffer).unwrap();

    assert_eq!(
        core::str::from_utf8(result).unwrap(),
        "AT+CSOCON=1,1111,\"127.0.0.1\",1\r\n"
    );
}

#[test]
fn test_close_socket() {
    let mut buffer = [0; 512];

    let at_connect_request = CloseSocket { socket_id: 0 };

    let result = at_connect_request.get_command(&mut buffer).unwrap();

    assert_eq!(core::str::from_utf8(result).unwrap(), "AT+CSOCL=0\r\n");
}

fn create(cid: Option<i32>) -> CreateSocket {
    CreateSocket {
        domain: Domain::IPv4,
        connection_type: Type::UPD,
        protocol: Protocol::UDPLITE,
        cid,
    }
}

#[test]
fn create_socket_writes_every_code() {
    let mut buffer = [0u8; 64];
    let domains = [(Domain::IPv4, '1'), (Domain::IPv6, '2')];
    let types = [(Type::TCP, '1'), (Type::UPD, '2'), (Type::RAW, '3')];
    let protocols = [(Protocol::IP, '1'), (Protocol::ICMP, '2'), (Protocol::UDPLITE, '3')];
    for (domain, d) in domains {
        for (connection_type, t) in types {
            for (protocol, p) in protocols {
                let command = CreateSocket { domain, connection_type, protocol, cid: None };
                let bytes = command.get_command(&mut buffer).unwrap();
                assert_eq!(bytes, format!("AT+CSOC={d},{t},{p}\r\n").as_bytes());
            }
        }
    }
}

#[test]
fn codes_are_the_wire_numbers() {
    assert_eq!(Domain::IPv4.code(), 1);
    assert_eq!(Domain::IPv6.code(), 2);
    assert_eq!(Type::TCP.code(), 1);
    assert_eq!(Type::UPD.code(), 2);
    assert_eq!(Type::RAW.code(), 3);
    assert_eq!(Protocol::IP.code(), 1);
    assert_eq!(Protocol::ICMP.code(), 2);
    assert_eq!(Protocol::UDPLITE.code(), 3);
}

#[test]
fn create_socket_writes_signed_and_large_context() {
    let mut buffer = [0u8; 64];
    assert_eq!(create(Some(0)).get_command(&mut buffer).unwrap(), b"AT+CSOC=1,2,3,0\r\n");
    assert_eq!(create(Some(-7)).get_command(&mut buffer).unwrap(), b"AT+CSOC=1,2,3,-7\r\n");
    assert_eq!(
        create(Some(i32::MAX)).get_command(&mut buffer).unwrap(),
        b"AT+CSOC=1,2,3,2147483647\r\n"
    );
    assert_eq!(
        create(Some(i32::MIN)).get_command(&mut buffer).unwrap(),
        b"AT+CSOC=1,2,3,-2147483648\r\n"
    );
}

#[test]
fn absent_context_is_left_out() {
    let mut with = [0u8; 64];
    let mut without = [0u8; 64];
    let present = create(Some(0));
    let absent = create(None);
    let long = present.get_command(&mut with).unwrap();
    let short = absent.get_command(&mut without).unwrap();
    assert_eq!(short, b"AT+CSOC=1,2,3\r\n");
    assert_eq!(short.len() + 2, long.len());
    assert_eq!(short.iter().filter(|b| **b == b',').count(), 2);
}

#[test]
fn command_fits_exactly() {
    // "AT+CSOCL=0\r\n" is 12 bytes long.
    let mut buffer = [0u8; 12];
    let command = CloseSocket { socket_id: 0 };
    let bytes = command.get_command(&mut buffer).unwrap();
    assert_eq!(bytes, b"AT+CSOCL=0\r\n");
}

#[test]
fn short_buffer_reports_missing_bytes() {
    let command = CloseSocket { socket_id: 0 };
    for room in 0..12usize {
        let mut buffer = vec![0u8; room];
        assert_eq!(command.get_command(&mut buffer), Err(12 - room));
    }
}

#[test]
fn retry_with_missing_bytes_succeeds() {
    let command = ConnectSocketToRemote {
        socket_id: 255,
        port: 65535,
        remote_address: "example.org",
        connection_type: Type::UPD,
    };
    let expected = b"AT+CSOCON=255,65535,\"example.org\",2\r\n";
    for room in 0..expected.len() {
        let mut buffer = vec![0u8; room];
        let missing = command.get_command(&mut buffer).unwrap_err();
        assert_eq!(missing, expected.len() - room);
        let mut larger = vec![0u8; room + missing];
        assert_eq!(command.get_command(&mut larger).unwrap(), expected);
    }
}

#[test]
fn encoding_does_not_depend_on_what_the_buffer_held() {
    let command = create(Some(12));
    let mut zeroed = [0u8; 32];
    let mut dirty = [0xAAu8; 32];
    let mut commas = [b','; 32];
    let first = command.get_command(&mut zeroed).unwrap().to_vec();
    let second = command.get_command(&mut dirty).unwrap().to_vec();
    let third = command.get_command(&mut commas).unwrap().to_vec();
    assert_eq!(first, b"AT+CSOC=1,2,3,12\r\n");
    assert_eq!(first, second);
    assert_eq!(first, third);
    let again = command.get_command(&mut zeroed).unwrap().to_vec();
    assert_eq!(first, again);
}

#[test]
fn short_buffer_full_of_commas_reports_missing_bytes() {
    let command = create(Some(12));
    // "AT+CSOC=1,2,3,12\r\n" is 18 bytes long.
    for room in 0..18usize {
        let mut buffer = vec![b','; room];
        assert_eq!(command.get_command(&mut buffer), Err(18 - room));
    }
}

#[test]
fn connect_quotes_the_address_as_it_is() {
    let mut buffer = [0u8; 64];
    let command = ConnectSocketToRemote {
        socket_id: 0,
        port: 1,
        remote_address: "",
        connection_type: Type::RAW,
    };
    assert_eq!(command.get_command(&mut buffer).unwrap(), b"AT+CSOCON=0,1,\"\",3\r\n");
    let command = ConnectSocketToRemote {
        socket_id: 9,
        port: 80,
        remote_address: "h\u{f6}st,\"x\"",
        connection_type: Type::TCP,
    };
    assert_eq!(
        command.get_command(&mut buffer).unwrap(),
        "AT+CSOCON=9,80,\"h\u{f6}st,\"x\"\",1\r\n".as_bytes()
    );
}

#[test]
fn send_writes_length_and_raw_data() {
    let mut buffer = [0u8; 64];
    let command = SendSocketMessage::new(2, b"hello").unwrap();
    assert_eq!(command.socket_id, 2);
    assert_eq!(command.data_len, 5);
    assert_eq!(command.data, b"hello");
    assert_eq!(command.get_command(&mut buffer).unwrap(), b"AT+CSOSEND=2,5,hello\r\n");
}

#[test]
fn send_keeps_binary_data_and_commas() {
    let mut buffer = [0u8; 64];
    let data = [0u8, b',', 0xFF, b'"', b'\r', b'\n', b','];
    let command = SendSocketMessage { socket_id: 200, data_len: 7, data: &data };
    let mut expected = b"AT+CSOSEND=200,7,".to_vec();
    expected.extend_from_slice(&data);
    expected.extend_from_slice(b"\r\n");
    assert_eq!(command.get_command(&mut buffer).unwrap(), &expected[..]);
}

#[test]
fn send_with_no_data() {
    let mut buffer = [0u8; 64];
    let command = SendSocketMessage::new(1, b"").unwrap();
    assert_eq!(command.get_command(&mut buffer).unwrap(), b"AT+CSOSEND=1,0,\r\n");
}

#[test]
fn send_takes_at_most_what_sixteen_bits_count() {
    let most = vec![7u8; 65535];
    let command = SendSocketMessage::new(3, &most).unwrap();
    assert_eq!(command.data_len, 65535);
    let mut buffer = vec![0u8; 65535 + 32];
    let bytes = command.get_command(&mut buffer).unwrap();
    assert_eq!(&bytes[..18], b"AT+CSOSEND=3,65535");
    assert_eq!(bytes.len(), 11 + 2 + 6 + 65535 + 2);
    let more = vec![7u8; 65536];
    assert!(SendSocketMessage::new(3, &more).is_none());
}

#[test]
fn send_short_buffer_reports_missing_bytes() {
    let command = SendSocketMessage::new(2, b"hello").unwrap();
    // "AT+CSOSEND=2,5,hello\r\n" is 22 bytes long.
    for room in 0..22usize {
        let mut buffer = vec![0u8; room];
        assert_eq!(command.get_command(&mut buffer), Err(22 - room));
    }
}

#[test]
fn created_socket_reply_round_trip() {
    let command = create(None);
    for id in 0..=255u8 {
        let reply = format!("+CSOC: {id}\r\n\r\nOK\r\n");
        assert_eq!(command.parse_response(reply.as_bytes()), Ok(AtResponse::SocketCreated(id)));
    }
}

#[test]
fn created_socket_reply_truncated() {
    let command = create(None);
    let reply = b"+CSOC: 125\r\n\r\nOK\r\n";
    for cut in 0..reply.len() {
        assert_eq!(command.parse_response(&reply[..cut]), Err(AtError::MalformedReply));
    }
    assert_eq!(command.parse_response(reply), Ok(AtResponse::SocketCreated(125)));
}

#[test]
fn created_socket_reply_reordered() {
    let command = create(None);
    assert_eq!(command.parse_response(b"\r\n\r\nOK\r\n+CSOC: 5"), Err(AtError::MalformedReply));
    assert_eq!(command.parse_response(b"5+CSOC: \r\n\r\nOK\r\n"), Err(AtError::MalformedReply));
    assert_eq!(command.parse_response(b"OK\r\n"), Err(AtError::MalformedReply));
    assert_eq!(command.parse_response(b"+CSOC: \r\n\r\nOK\r\n"), Err(AtError::MalformedReply));
    assert_eq!(command.parse_response(b"+CSOC:5\r\n\r\nOK\r\n"), Err(AtError::MalformedReply));
    assert_eq!(command.parse_response(b"+CSOC: 5\r\nOK\r\n"), Err(AtError::MalformedReply));
    assert_eq!(command.parse_response(b"+CSOC: x\r\n\r\nOK\r\n"), Err(AtError::MalformedReply));
    assert_eq!(command.parse_response(b" +CSOC: 5\r\n\r\nOK\r\n"), Err(AtError::MalformedReply));
    assert_eq!(command.parse_response(b""), Err(AtError::MalformedReply));
}

#[test]
fn created_socket_reply_in_another_form() {
    let command = create(None);
    let bad = Err(AtError::MalformedReply);
    assert_eq!(command.parse_response(b"+CSOC: 5\r\n\r\nOK\r\n"), Ok(AtResponse::SocketCreated(5)));
    // Forms that the parser takes for the same number.
    assert_eq!(command.parse_response(b"+CSOC:    5\r\n\r\nOK\r\n"), bad);
    assert_eq!(command.parse_response(b"+CSOC: 5  \r\n\r\nOK\r\n"), bad);
    assert_eq!(command.parse_response(b"+CSOC: 5,\r\n\r\nOK\r\n"), bad);
    assert_eq!(command.parse_response(b"+CSOC: 5, \r\n\r\nOK\r\n"), bad);
    assert_eq!(command.parse_response(b"+CSOC: +5\r\n\r\nOK\r\n"), bad);
    assert_eq!(command.parse_response(b"+CSOC: 005\r\n\r\nOK\r\n"), bad);
    assert_eq!(command.parse_response(b"+CSOC: 05\r\n\r\nOK\r\n"), bad);
    assert_eq!(command.parse_response(b"+CSOC: -\r\n\r\nOK\r\n"), bad);
    assert_eq!(command.parse_response(b"+CSOC: -0\r\n\r\nOK\r\n"), bad);
    assert_eq!(command.parse_response(b"+CSOC: +-3\r\n\r\nOK\r\n"), bad);
    // Bytes behind the end of the reply.
    assert_eq!(command.parse_response(b"+CSOC: 5\r\n\r\nOK\r\nX"), bad);
    assert_eq!(command.parse_response(b"+CSOC: 5\r\n\r\nOK\r\nmore"), bad);
    assert_eq!(command.parse_response(b"+CSOC: 5\r\n\r\nOK\r\n "), bad);
    assert_eq!(command.parse_response(b"+CSOC: 5\r\n\r\nOK\r\n\r\n"), bad);
    // Forms that the parser does not take either.
    assert_eq!(command.parse_response(b"+CSOC: 5,,\r\n\r\nOK\r\n"), bad);
    assert_eq!(command.parse_response(b"+CSOC: 5 ,\r\n\r\nOK\r\n"), bad);
    assert_eq!(command.parse_response(b"+CSOC: 5\t\r\n\r\nOK\r\n"), bad);
}

#[test]
fn created_socket_reply_number_is_no_identifier() {
    let command = create(None);
    let bad = Err(AtError::MalformedReply);
    assert_eq!(command.parse_response(b"+CSOC: 255\r\n\r\nOK\r\n"), Ok(AtResponse::SocketCreated(255)));
    assert_eq!(command.parse_response(b"+CSOC: 0\r\n\r\nOK\r\n"), Ok(AtResponse::SocketCreated(0)));
    assert_eq!(command.parse_response(b"+CSOC: 256\r\n\r\nOK\r\n"), bad);
    assert_eq!(command.parse_response(b"+CSOC: 300\r\n\r\nOK\r\n"), bad);
    assert_eq!(command.parse_response(b"+CSOC: 1000\r\n\r\nOK\r\n"), bad);
    assert_eq!(command.parse_response(b"+CSOC: -1\r\n\r\nOK\r\n"), bad);
    assert_eq!(command.parse_response(b"+CSOC: -255\r\n\r\nOK\r\n"), bad);
    assert_eq!(command.parse_response(b"+CSOC: 2147483647\r\n\r\nOK\r\n"), bad);
    assert_eq!(command.parse_response(b"+CSOC: -2147483648\r\n\r\nOK\r\n"), bad);
}

#[test]
fn created_socket_reply_number_out_of_range() {
    let command = create(None);
    let bad = Err(AtError::MalformedReply);
    assert_eq!(command.parse_response(b"+CSOC: 2147483648\r\n\r\nOK\r\n"), bad);
    assert_eq!(command.parse_response(b"+CSOC: -2147483649\r\n\r\nOK\r\n"), bad);
    assert_eq!(command.parse_response(b"+CSOC: 99999999999\r\n\r\nOK\r\n"), bad);
    assert_eq!(command.parse_response(b"+CSOC: 9999999999-\r\n\r\nOK\r\n"), bad);
    assert_eq!(command.parse_response(b"+CSOC: 2147483648-\r\n\r\nOK\r\n"), bad);
    assert_eq!(command.parse_response(b"+CSOC: 000000000005\r\n\r\nOK\r\n"), bad);
    assert_eq!(command.parse_response(b"+CSOC: 5-3\r\n\r\nOK\r\n"), bad);
    assert_eq!(command.parse_response(b"+CSOC: --5\r\n\r\nOK\r\n"), bad);
    assert_eq!(command.parse_response(b"+CSOC: +\r\n\r\nOK\r\n"), bad);
    assert_eq!(command.parse_response(b"+CSOC: ++5\r\n\r\nOK\r\n"), bad);
}

#[test]
fn acknowledgement_reply() {
    let connect = ConnectSocketToRemote {
        socket_id: 1,
        port: 1111,
        remote_address: "127.0.0.1",
        connection_type: Type::TCP,
    };
    let send = SendSocketMessage::new(1, b"x").unwrap();
    assert_eq!(connect.parse_response(b"OK\r\n"), Ok(AtResponse::Acknowledged));
    assert_eq!(send.parse_response(b"OK\r\n"), Ok(AtResponse::Acknowledged));
    let others: [&[u8]; 14] = [
        b"",
        b"O",
        b"OK",
        b"OK\r",
        b"OK\n\r",
        b"KO\r\n",
        b" OK\r\n",
        b"ERROR\r\n",
        b"ok\r\n",
        b"\r\nOK\r\n",
        b"OK\r\nOK\r\n",
        b"OK\r\nmore",
        b"OK\r\n   ",
        b"OK\r\n\n",
    ];
    for bad in others {
        assert_eq!(connect.parse_response(bad), Err(AtError::MalformedReply));
        assert_eq!(send.parse_response(bad), Err(AtError::MalformedReply));
    }
}

#[test]
fn close_socket_takes_any_reply() {
    let command = CloseSocket { socket_id: 4 };
    assert_eq!(command.parse_response(b"OK\r\n"), Ok(AtResponse::Acknowledged));
    assert_eq!(command.parse_response(b""), Ok(AtResponse::Acknowledged));
    assert_eq!(command.parse_response(b"ERROR\r\n"), Ok(AtResponse::Acknowledged));
}

#[test]
fn close_socket_writes_every_identifier() {
    let mut buffer = [0u8; 16];
    for id in 0..=255u8 {
        let command = CloseSocket { socket_id: id };
        let bytes = command.get_command(&mut buffer).unwrap();
        assert_eq!(bytes, format!("AT+CSOCL={id}\r\n").as_bytes());
    }
}

#[test]
fn buffer_holds_the_command_and_keeps_the_rest() {
    let mut buffer = [0xEEu8; 20];
    let command = CloseSocket { socket_id: 7 };
    let len = command.get_command(&mut buffer).unwrap().len();
    assert_eq!(len, 12);
    assert_eq!(&buffer[..len], b"AT+CSOCL=7\r\n");
    assert!(buffer[len..].iter().all(|b| *b == 0xEE));
}

#[test]
fn buffer_holds_the_longer_commands_too() {
    let mut buffer = [b','; 48];
    let connect = ConnectSocketToRemote {
        socket_id: 3,
        port: 8080,
        remote_address: "10.0.0.1",
        connection_type: Type::TCP,
    };
    let len = connect.get_command(&mut buffer).unwrap().len();
    assert_eq!(&buffer[..len], b"AT+CSOCON=3,8080,\"10.0.0.1\",1\r\n");
    assert!(buffer[len..].iter().all(|b| *b == b','));
    let mut buffer = [b'\r'; 48];
    let send = SendSocketMessage::new(3, b"a,b,").unwrap();
    let len = send.get_command(&mut buffer).unwrap().len();
    assert_eq!(&buffer[..len], b"AT+CSOSEND=3,4,a,b,\r\n");
    assert!(buffer[len..].iter().all(|b| *b == b'\r'));
}

#[test]
fn buffer_keeps_its_length_when_too_short() {
    let mut buffer = vec![1u8; 5];
    let command = CloseSocket { socket_id: 7 };
    assert_eq!(command.get_command(&mut buffer), Err(7));
    assert_eq!(buffer.len(), 5);
}

#[test]
fn short_buffer_holds_the_pieces_that_fitted() {
    let command = CloseSocket { socket_id: 7 };
    // "AT" fits, the name after it does not, and nothing behind it is tried.
    let mut buffer = [1u8; 5];
    assert_eq!(command.get_command(&mut buffer), Err(7));
    assert_eq!(&buffer, b"AT\x01\x01\x01");
    // The name fits, the equals sign does not.
    let mut buffer = [1u8; 8];
    assert_eq!(command.get_command(&mut buffer), Err(4));
    assert_eq!(&buffer, b"AT+CSOCL");
    // The number fits, its comma does not.
    let mut buffer = [1u8; 10];
    assert_eq!(command.get_command(&mut buffer), Err(2));
    assert_eq!(&buffer, b"AT+CSOCL=7");
    // Everything fits but the line ending: the last comma stays.
    let mut buffer = [1u8; 11];
    assert_eq!(command.get_command(&mut buffer), Err(1));
    assert_eq!(&buffer, b"AT+CSOCL=7,");
    let mut buffer = [1u8; 0];
    assert_eq!(command.get_command(&mut buffer), Err(12));
}

#[test]
fn equal_buffers_are_equal_after_encoding() {
    let command = create(Some(12));
    for room in 0..24usize {
        let mut first = vec![0u8; room];
        let mut second = vec![0u8; room];
        let one = command.get_command(&mut first).map(|bytes| bytes.to_vec());
        let two = command.get_command(&mut second).map(|bytes| bytes.to_vec());
        assert_eq!(one, two);
        assert_eq!(first, second);
        assert_eq!(one.is_ok(), room >= 18);
    }
    let send = SendSocketMessage::new(9, b"payload").unwrap();
    for room in 0..32usize {
        let mut first = vec![0u8; room];
        let mut second = vec![0u8; room];
        let one = send.get_command(&mut first).map(|bytes| bytes.to_vec());
        let two = send.get_command(&mut second).map(|bytes| bytes.to_vec());
        assert_eq!(one, two);
        assert_eq!(first, second);
        assert_eq!(send.socket_id, 9);
        assert_eq!(send.data_len, 7);
        assert_eq!(send.data, b"payload");
    }
}

#[test]
fn port_zero_is_not_encoded() {
    let command = ConnectSocketToRemote {
        socket_id: 1,
        port: 0,
        remote_address: "127.0.0.1",
        connection_type: Type::TCP,
    };
    assert!(!command.can_encode());
    for room in [0usize, 1, 16, 512] {
        let mut buffer = vec![0x5Au8; room];
        assert!(encode_checked(&command, &mut buffer).is_none());
        assert!(buffer.iter().all(|b| *b == 0x5A));
        assert_eq!(buffer.len(), room);
    }
}

#[test]
fn wrong_length_is_not_encoded() {
    let command = SendSocketMessage { socket_id: 1, data_len: 4, data: b"hello" };
    assert!(!command.can_encode());
    let mut buffer = [0x5Au8; 64];
    assert!(encode_checked(&command, &mut buffer).is_none());
    assert!(buffer.iter().all(|b| *b == 0x5A));
}

#[test]
fn checked_encoding_of_good_commands() {
    let mut buffer = [0u8; 64];
    let connect = ConnectSocketToRemote {
        socket_id: 1,
        port: 1,
        remote_address: "a",
        connection_type: Type::TCP,
    };
    assert!(connect.can_encode());
    assert_eq!(
        encode_checked(&connect, &mut buffer),
        Some(Ok(&b"AT+CSOCON=1,1,\"a\",1\r\n"[..]))
    );
    let send = SendSocketMessage::new(1, b"hello").unwrap();
    assert!(send.can_encode());
    assert_eq!(encode_checked(&send, &mut buffer), Some(Ok(&b"AT+CSOSEND=1,5,hello\r\n"[..])));
    let close = CloseSocket { socket_id: 1 };
    assert!(close.can_encode());
    let mut small = [0u8; 4];
    assert_eq!(encode_checked(&close, &mut small), Some(Err(8)));
    assert!(create(None).can_encode());
    assert_eq!(encode_checked(&create(None), &mut buffer), Some(Ok(&b"AT+CSOC=1,2,3\r\n"[..])));
}
