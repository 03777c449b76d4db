use fserve::messagebuilder::{
    drain_buffer, encode_message, MessageBuilder, Processed,
};
use fserve::model::{Header, Message, MessageType, ServerError};
use fserve::numtext::{
    i64_to_dec, parse_i64_bytes, parse_u32_bytes, parse_u64_digits, parse_usize_bytes, u64_to_dec,
    u64_to_string,
};
use fserve::utils::check_slice;

fn msg(t: MessageType, body: &str) -> Message {
    Message::new(t, body)
}

#[test]
fn header_to_string_renders_fields() {
    let h = Header { message_type: 1, message_length: 4, message_id: 0, answer_id: 0 };
    assert_eq!(h.to_string(), "1;4;0;0");
    let h2 = Header { message_type: 100, message_length: 0, message_id: -7, answer_id: 12 };
    assert_eq!(h2.to_string(), "100;0;-7;12");
}

#[test]
fn header_parse_reads_fields() {
    let h = Header::parse("2;10;5;-3").unwrap();
    assert_eq!(h.message_type, 2);
    assert_eq!(h.message_length, 10);
    assert_eq!(h.message_id, 5);
    assert_eq!(h.answer_id, -3);
}

#[test]
fn header_parse_tolerates_newlines() {
    let h = Header::parse("\n\n1;4;0;0\n").unwrap();
    assert_eq!(h.message_type, 1);
    assert_eq!(h.message_length, 4);
}

#[test]
fn header_parse_rejects_bad_input() {
    assert_eq!(Header::parse("abc").unwrap_err(), ServerError::BadHeader);
    assert_eq!(Header::parse("1;2;3").unwrap_err(), ServerError::BadHeader);
    assert_eq!(Header::parse("1;2;3;4;5").unwrap_err(), ServerError::BadHeader);
    assert_eq!(Header::parse("1;x;3;4").unwrap_err(), ServerError::BadHeader);
    assert_eq!(Header::parse("").unwrap_err(), ServerError::BadHeader);
    // A field too large for its type is rejected, not truncated.
    assert_eq!(
        Header::parse("2;18446744073709551616;0;0").unwrap_err(),
        ServerError::BadHeader
    );
}

#[test]
fn header_parse_accepts_signs() {
    let h = Header::parse("1;4;-5;+7").unwrap();
    assert_eq!(h.message_id, -5);
    assert_eq!(h.answer_id, 7);
}

#[test]
fn message_new_fills_header() {
    let m = msg(MessageType::Name, "toto");
    assert_eq!(m.header.message_type, 1);
    assert_eq!(m.header.message_length, 4);
    assert_eq!(m.header.message_id, 0);
    assert_eq!(m.header.answer_id, 0);
    assert_eq!(m.body, b"toto".to_vec());
}

#[test]
fn body_as_str_checks_utf8() {
    let m = msg(MessageType::Name, "toto");
    assert_eq!(m.body_as_str().unwrap(), "toto");
    let bad = Message {
        header: Header { message_type: 1, message_length: 1, message_id: 0, answer_id: 0 },
        body: vec![0xff],
    };
    assert_eq!(bad.body_as_str().unwrap_err(), ServerError::BadUtf8);
}

#[test]
fn encode_message_writes_header_line_and_body() {
    let m = msg(MessageType::Name, "toto");
    assert_eq!(encode_message(&m), b"1;4;0;0\ntoto".to_vec());
    let m2 = Message {
        header: Header { message_type: 5, message_length: 2, message_id: -1, answer_id: 8 },
        body: vec![0, 10],
    };
    let mut expected = b"5;2;-1;8\n".to_vec();
    expected.push(0);
    expected.push(10);
    assert_eq!(encode_message(&m2), expected);
}

#[test]
fn decode_whole_message_in_one_chunk() {
    let m = msg(MessageType::Name, "toto");
    let enc = encode_message(&m);
    match MessageBuilder::new().process(&enc).unwrap() {
        Processed::Complete(out, used) => {
            assert_eq!(used, enc.len());
            assert_eq!(out.header, m.header);
            assert_eq!(out.body, m.body);
        },
        Processed::Incomplete(_, _) => panic!("expected a complete message"),
    }
}

#[test]
fn decode_one_byte_at_a_time() {
    let m = msg(MessageType::Name, "toto");
    let enc = encode_message(&m);
    let mut builder = MessageBuilder::new();
    for (i, b) in enc.iter().enumerate() {
        match builder.process(&[*b]).unwrap() {
            Processed::Incomplete(next, used) => {
                assert!(i + 1 < enc.len());
                assert_eq!(used, 1);
                builder = next;
            },
            Processed::Complete(out, used) => {
                assert_eq!(i + 1, enc.len());
                assert_eq!(used, 1);
                assert_eq!(out.header, m.header);
                assert_eq!(out.body, m.body);
                return;
            },
        }
    }
    panic!("the message never completed");
}

#[test]
fn decode_two_messages_back_to_back() {
    let m1 = msg(MessageType::Name, "toto");
    let m2 = msg(MessageType::Proxy, "xyz");
    let mut buf = encode_message(&m1);
    let len1 = buf.len();
    buf.extend_from_slice(&encode_message(&m2));
    match MessageBuilder::new().process(&buf).unwrap() {
        Processed::Complete(out, used) => {
            assert_eq!(used, len1);
            assert_eq!(out.header, m1.header);
            assert_eq!(out.body, m1.body);
            match MessageBuilder::new().process(&buf[used..]).unwrap() {
                Processed::Complete(out2, used2) => {
                    assert_eq!(used2, buf.len() - len1);
                    assert_eq!(out2.header, m2.header);
                    assert_eq!(out2.body, m2.body);
                },
                Processed::Incomplete(_, _) => panic!("second message incomplete"),
            }
        },
        Processed::Incomplete(_, _) => panic!("first message incomplete"),
    }
}

#[test]
fn decode_round_trips_signed_tokens() {
    let m = Message {
        header: Header { message_type: 7, message_length: 3, message_id: -81, answer_id: 9 },
        body: b"abc".to_vec(),
    };
    let enc = encode_message(&m);
    match MessageBuilder::new().process(&enc).unwrap() {
        Processed::Complete(out, used) => {
            assert_eq!(used, enc.len());
            assert_eq!(out.header, m.header);
            assert_eq!(out.body, m.body);
        },
        Processed::Incomplete(_, _) => panic!("expected a complete message"),
    }
}

#[test]
fn drain_buffer_collects_all_messages() {
    let m1 = msg(MessageType::Name, "toto");
    let m2 = msg(MessageType::Proxy, "");
    let mut buf = encode_message(&m1);
    buf.extend_from_slice(&encode_message(&m2));
    let (msgs, _rest) = drain_buffer(MessageBuilder::new(), &buf).unwrap();
    assert_eq!(msgs.len(), 2);
    assert_eq!(msgs[0].body, b"toto".to_vec());
    assert_eq!(msgs[1].header.message_type, 5);
    assert_eq!(msgs[1].body.len(), 0);
}

#[test]
fn decode_zero_length_body() {
    let enc = b"3;0;0;0\n";
    match MessageBuilder::new().process(enc).unwrap() {
        Processed::Complete(out, used) => {
            assert_eq!(used, enc.len());
            assert_eq!(out.header.message_type, 3);
            assert_eq!(out.body.len(), 0);
        },
        Processed::Incomplete(_, _) => panic!("expected a complete message"),
    }
}

#[test]
fn decode_body_split_across_reads() {
    let mut builder = MessageBuilder::new();
    builder = match builder.process(b"1;4;0;0\nto").unwrap() {
        Processed::Incomplete(b, used) => {
            assert_eq!(used, 10);
            b
        },
        Processed::Complete(_, _) => panic!("not complete yet"),
    };
    match builder.process(b"to").unwrap() {
        Processed::Complete(out, used) => {
            assert_eq!(used, 2);
            assert_eq!(out.body, b"toto".to_vec());
        },
        Processed::Incomplete(_, _) => panic!("expected completion"),
    }
}

#[test]
fn decode_reports_consumed_and_leaves_rest() {
    let enc = b"1;4;0;0\ntotoEXTRA";
    match MessageBuilder::new().process(enc).unwrap() {
        Processed::Complete(out, used) => {
            assert_eq!(used, 12);
            assert_eq!(out.body, b"toto".to_vec());
        },
        Processed::Incomplete(_, _) => panic!("expected a complete message"),
    }
}

#[test]
fn short_line_is_not_a_header() {
    // Three bytes ending in a newline are below the minimal header length.
    match MessageBuilder::new().process(b"0;\n").unwrap() {
        Processed::Incomplete(builder, used) => {
            assert_eq!(used, 3);
            // The next line completes a five-field buffer, which is bad.
            assert!(builder.process(b"1;2;3;4\n").is_err());
        },
        Processed::Complete(_, _) => panic!("a three-byte line must not complete"),
    }
}

#[test]
fn leading_newlines_are_absorbed() {
    let (msgs, _rest) = drain_buffer(MessageBuilder::new(), b"\n1;4;0;0\ntoto").unwrap();
    assert_eq!(msgs.len(), 1);
    assert_eq!(msgs[0].body, b"toto".to_vec());
}

#[test]
fn bad_header_is_an_error() {
    assert!(MessageBuilder::new().process(b"abcd\n").is_err());
    assert!(drain_buffer(MessageBuilder::new(), b"a;b;c;d\n").is_err());
}

#[test]
fn numeral_round_trips() {
    assert_eq!(u64_to_dec(0), b"0".to_vec());
    assert_eq!(u64_to_dec(90210), b"90210".to_vec());
    assert_eq!(u64_to_string(12345), "12345");
    assert_eq!(i64_to_dec(-42), b"-42".to_vec());
    assert_eq!(i64_to_dec(i64::MIN), b"-9223372036854775808".to_vec());
    assert_eq!(parse_i64_bytes(b"-9223372036854775808"), Some(i64::MIN));
    assert_eq!(parse_i64_bytes(b"9223372036854775807"), Some(i64::MAX));
    assert_eq!(parse_i64_bytes(b"9223372036854775808"), None);
    assert_eq!(parse_u64_digits(b"18446744073709551615"), Some(u64::MAX));
    assert_eq!(parse_u64_digits(b"18446744073709551616"), None);
    assert_eq!(parse_u64_digits(b""), None);
    assert_eq!(parse_u64_digits(b"12a"), None);
    assert_eq!(parse_u32_bytes(b"4294967295"), Some(u32::MAX));
    assert_eq!(parse_u32_bytes(b"4294967296"), None);
    assert_eq!(parse_u32_bytes(b"+7"), Some(7));
    assert_eq!(parse_usize_bytes(b"0"), Some(0));
}

#[test]
fn check_slice_guards_bounds() {
    let buf = [1u8, 2, 3, 4];
    assert_eq!(check_slice(&buf, 1, 3).unwrap(), &[2u8, 3][..]);
    assert_eq!(check_slice(&buf, 2, 5).unwrap_err(), ServerError::OutOfBounds);
    assert_eq!(check_slice(&buf, 5, 6).unwrap_err(), ServerError::OutOfBounds);
}
