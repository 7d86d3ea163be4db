//! Scenario and property tests: the concrete call-by-call outcomes the
//! format prescribes, round trips through encode and decode, chunking
//! independence, suspension idempotence, and limit enforcement.

use stream_resp::parser::{ParseError, Parser};
use stream_resp::resp::RespValue;

fn decode_all(bytes: &[u8]) -> Vec<RespValue> {
    let mut parser = Parser::new(100, 100000);
    parser.read_buf(bytes);
    let mut out = Vec::new();
    loop {
        match parser.try_parse() {
            Ok(Some(v)) => out.push(v),
            Ok(None) => break,
            Err(ParseError::UnexpectedEof) | Err(ParseError::NotEnoughData) => break,
            Err(e) => panic!("unexpected error {:?}", e),
        }
    }
    out
}

#[test]
fn scenario_simple_string() {
    let mut parser = Parser::new(100, 1000);
    parser.read_buf(b"+OK\r\n");
    assert_eq!(
        parser.try_parse(),
        Ok(Some(RespValue::SimpleString(b"OK".to_vec())))
    );
}

#[test]
fn scenario_bulk_string_three_chunks() {
    let mut parser = Parser::new(100, 1000);
    parser.read_buf(b"$5");
    assert!(matches!(parser.try_parse(), Err(ParseError::UnexpectedEof)));
    parser.read_buf(b"\r\nhello");
    assert!(matches!(parser.try_parse(), Err(ParseError::NotEnoughData)));
    parser.read_buf(b"\r\n");
    assert_eq!(
        parser.try_parse(),
        Ok(Some(RespValue::BulkString(Some(b"hello".to_vec()))))
    );
}

#[test]
fn scenario_array_four_chunks() {
    let mut parser = Parser::new(100, 1000);
    parser.read_buf(b"*2");
    assert!(matches!(parser.try_parse(), Err(ParseError::UnexpectedEof)));
    parser.read_buf(b"\r\n:1");
    assert!(matches!(parser.try_parse(), Err(ParseError::UnexpectedEof)));
    parser.read_buf(b"\r\n");
    assert!(matches!(parser.try_parse(), Err(ParseError::UnexpectedEof)));
    parser.read_buf(b":2\r\n");
    assert_eq!(
        parser.try_parse(),
        Ok(Some(RespValue::Array(Some(vec![
            RespValue::Integer(1),
            RespValue::Integer(2)
        ]))))
    );
}

#[test]
fn scenario_pipelined_commands() {
    let mut parser = Parser::new(100, 1000);
    parser.read_buf(
        b"*3\r\n$3\r\nSET\r\n$4\r\nkey1\r\n$6\r\nvalue1\r\n*3\r\n$3\r\nGET\r\n$4\r\nkey1\r\n$0\r\n\r\n",
    );
    assert_eq!(
        parser.try_parse(),
        Ok(Some(RespValue::Array(Some(vec![
            RespValue::BulkString(Some(b"SET".to_vec())),
            RespValue::BulkString(Some(b"key1".to_vec())),
            RespValue::BulkString(Some(b"value1".to_vec())),
        ]))))
    );
    assert_eq!(
        parser.try_parse(),
        Ok(Some(RespValue::Array(Some(vec![
            RespValue::BulkString(Some(b"GET".to_vec())),
            RespValue::BulkString(Some(b"key1".to_vec())),
            RespValue::BulkString(Some(b"".to_vec())),
        ]))))
    );
}

#[test]
fn scenario_three_distinct_nulls() {
    let mut parser = Parser::new(100, 1000);
    parser.read_buf(b"*-1\r\n$-1\r\n_\r\n");
    assert_eq!(parser.try_parse(), Ok(Some(RespValue::Array(None))));
    assert_eq!(parser.try_parse(), Ok(Some(RespValue::BulkString(None))));
    assert_eq!(parser.try_parse(), Ok(Some(RespValue::Null)));
}

#[test]
fn scenario_map_preserves_pair_order() {
    let mut parser = Parser::new(100, 1000);
    parser.read_buf(b"%2\r\n+k1\r\n:1\r\n+k2\r\n$5\r\nvalue\r\n");
    assert_eq!(
        parser.try_parse(),
        Ok(Some(RespValue::MapVal(Some(vec![
            (
                RespValue::SimpleString(b"k1".to_vec()),
                RespValue::Integer(1)
            ),
            (
                RespValue::SimpleString(b"k2".to_vec()),
                RespValue::BulkString(Some(b"value".to_vec()))
            ),
        ]))))
    );
}

#[test]
fn scenario_forty_digit_integer_overflows() {
    let mut parser = Parser::new(100, 1000);
    let digits = "9".repeat(40);
    parser.read_buf(format!(":{}\r\n", digits).as_bytes());
    assert_eq!(parser.try_parse(), Err(ParseError::Overflow));
}

#[test]
fn scenario_depth_limit() {
    let mut parser = Parser::new(1, 1000);
    parser.read_buf(b"*1\r\n*1\r\n+OK\r\n");
    assert_eq!(parser.try_parse(), Err(ParseError::InvalidDepth));
}

#[test]
fn scenario_cr_inside_simple_string() {
    let mut parser = Parser::new(100, 1000);
    parser.read_buf(b"+bad\rtext\r\n");
    assert!(matches!(
        parser.try_parse(),
        Err(ParseError::InvalidFormat(_))
    ));
}

#[test]
fn round_trip_scalars() {
    let values = vec![
        RespValue::SimpleString(b"OK".to_vec()),
        RespValue::SimpleString(b"".to_vec()),
        RespValue::Error(b"ERR wrong type".to_vec()),
        RespValue::Integer(0),
        RespValue::Integer(i64::MAX),
        RespValue::Integer(i64::MIN),
        RespValue::Integer(-7),
        RespValue::BulkString(None),
        RespValue::BulkString(Some(b"".to_vec())),
        RespValue::BulkString(Some(b"binary \x01\x02\xc3\xa9 safe".to_vec())),
        RespValue::Null,
        RespValue::Boolean(true),
        RespValue::Boolean(false),
        RespValue::Double(b"3.14".to_vec()),
        RespValue::Double(b"-inf".to_vec()),
        RespValue::Double(b"nan".to_vec()),
        RespValue::Double(b"1.23e4".to_vec()),
        RespValue::BigNumber(b"3492890328409238509324850943850943825024385".to_vec()),
        RespValue::BigNumber(b"-42".to_vec()),
        RespValue::BulkError(None),
        RespValue::BulkError(Some(b"Error details".to_vec())),
        RespValue::VerbatimString(None),
        RespValue::VerbatimString(Some(b"txt:hello".to_vec())),
    ];
    for v in values {
        let encoded = v.as_bytes();
        let decoded = decode_all(&encoded);
        assert_eq!(decoded, vec![v], "round trip failed for {:?}", encoded);
    }
}

#[test]
fn round_trip_aggregates() {
    let values = vec![
        RespValue::Array(None),
        RespValue::Array(Some(vec![])),
        RespValue::Array(Some(vec![
            RespValue::Integer(1),
            RespValue::SimpleString(b"two".to_vec()),
            RespValue::Array(Some(vec![RespValue::BulkString(Some(b"deep".to_vec()))])),
        ])),
        RespValue::MapVal(None),
        RespValue::MapVal(Some(vec![])),
        RespValue::MapVal(Some(vec![
            (
                RespValue::SimpleString(b"k".to_vec()),
                RespValue::Array(Some(vec![RespValue::Integer(9)])),
            ),
            (RespValue::Integer(2), RespValue::Null),
        ])),
        RespValue::SetVal(None),
        RespValue::SetVal(Some(vec![RespValue::Integer(5)])),
        RespValue::Push(None),
        RespValue::Push(Some(vec![
            RespValue::SimpleString(b"message".to_vec()),
            RespValue::Integer(42),
        ])),
    ];
    for v in values {
        let encoded = v.as_bytes();
        let decoded = decode_all(&encoded);
        assert_eq!(decoded, vec![v], "round trip failed for {:?}", encoded);
    }
}

#[test]
fn chunk_independence() {
    let stream: &[u8] =
        b"+OK\r\n:123\r\n*2\r\n$3\r\nfoo\r\n$3\r\nbar\r\n%1\r\n+k\r\n:1\r\n,2.5\r\n#t\r\n_\r\n";
    let whole = decode_all(stream);
    assert_eq!(whole.len(), 7);

    for chunk_size in [1usize, 2, 3, 5, 7, 11] {
        let mut parser = Parser::new(100, 1000);
        let mut got = Vec::new();
        for chunk in stream.chunks(chunk_size) {
            parser.read_buf(chunk);
            loop {
                match parser.try_parse() {
                    Ok(Some(v)) => got.push(v),
                    Err(ParseError::UnexpectedEof) | Err(ParseError::NotEnoughData) => break,
                    other => panic!("unexpected outcome {:?}", other),
                }
            }
        }
        assert_eq!(got, whole, "chunk size {} changed the outcome", chunk_size);
    }
}

#[test]
fn suspension_is_idempotent() {
    let mut parser = Parser::new(100, 1000);
    parser.read_buf(b"$5\r\nhel");
    let first = parser.try_parse();
    assert!(matches!(first, Err(ParseError::NotEnoughData)));
    let second = parser.try_parse();
    assert_eq!(first, second);
    let third = parser.try_parse();
    assert_eq!(first, third);

    parser.read_buf(b"lo\r\n");
    assert_eq!(
        parser.try_parse(),
        Ok(Some(RespValue::BulkString(Some(b"hello".to_vec()))))
    );
}

#[test]
fn no_silent_truncation() {
    // A successful return consumes exactly the bytes of the value: the
    // next byte starts the next value, even with no separator handling.
    let mut parser = Parser::new(100, 1000);
    parser.read_buf(b":1\r\n:2\r\n:3\r\n");
    assert_eq!(parser.try_parse(), Ok(Some(RespValue::Integer(1))));
    assert_eq!(parser.try_parse(), Ok(Some(RespValue::Integer(2))));
    assert_eq!(parser.try_parse(), Ok(Some(RespValue::Integer(3))));
    assert_eq!(parser.try_parse(), Err(ParseError::UnexpectedEof));
}

#[test]
fn iteration_ceiling_is_enforced() {
    // Stray CRLF pairs at value boundaries each cost one transition; a
    // pathological run of them exhausts the per-call ceiling.
    let mut parser = Parser::new(100, 1000);
    let mut input = Vec::new();
    for _ in 0..1100 {
        input.extend_from_slice(b"\r\n");
    }
    input.extend_from_slice(b"+OK\r\n");
    parser.read_buf(&input);
    let result = parser.try_parse();
    assert!(
        matches!(result, Err(ParseError::InvalidFormat(_))),
        "expected the iteration ceiling, got {:?}",
        result
    );
}

#[test]
fn stray_crlf_within_budget_is_skipped() {
    let mut parser = Parser::new(100, 1000);
    parser.read_buf(b"\r\n\r\n+OK\r\n");
    assert_eq!(
        parser.try_parse(),
        Ok(Some(RespValue::SimpleString(b"OK".to_vec())))
    );
}

#[test]
fn length_limit_is_enforced() {
    // Any $N with N at or above the configured maximum fails before the
    // payload is buffered.
    let mut parser = Parser::new(100, 1000);
    parser.read_buf(b"$1000\r\n");
    assert_eq!(parser.try_parse(), Err(ParseError::InvalidLength));

    let mut parser = Parser::new(100, 1000);
    parser.read_buf(b"$999999999\r\n");
    assert_eq!(parser.try_parse(), Err(ParseError::InvalidLength));
}

#[test]
fn explicit_positive_sign_option() {
    // Off by default: rejected.
    let mut parser = Parser::new(100, 1000);
    parser.read_buf(b":+123\r\n");
    assert!(matches!(
        parser.try_parse(),
        Err(ParseError::InvalidFormat(_))
    ));

    // Switched on: accepted.
    let mut parser = Parser::new(100, 1000);
    parser.set_allow_explicit_positive_sign(true);
    parser.read_buf(b":+123\r\n");
    assert_eq!(parser.try_parse(), Ok(Some(RespValue::Integer(123))));

    // A bare '+' is still malformed.
    let mut parser = Parser::new(100, 1000);
    parser.set_allow_explicit_positive_sign(true);
    parser.read_buf(b":+\r\n");
    assert!(matches!(
        parser.try_parse(),
        Err(ParseError::InvalidFormat(_))
    ));

    // '+' and '-' together are still malformed.
    let mut parser = Parser::new(100, 1000);
    parser.set_allow_explicit_positive_sign(true);
    parser.read_buf(b":+-1\r\n");
    assert!(matches!(
        parser.try_parse(),
        Err(ParseError::InvalidFormat(_))
    ));
}

#[test]
fn long_integer_with_leading_zeros() {
    // More than nineteen bytes of digits goes through the long-number
    // path; leading zeros keep the value small.
    let mut parser = Parser::new(100, 1000);
    parser.read_buf(b":00000000000000000042\r\n");
    assert_eq!(parser.try_parse(), Ok(Some(RespValue::Integer(42))));

    let mut parser = Parser::new(100, 1000);
    parser.read_buf(format!(":0{}\r\n", i64::MIN).as_bytes());
    assert!(matches!(
        parser.try_parse(),
        Err(ParseError::InvalidFormat(_))
    ));
}

#[test]
fn reset_after_fatal_error() {
    let mut parser = Parser::new(100, 1000);
    parser.read_buf(b"x");
    assert!(matches!(
        parser.try_parse(),
        Err(ParseError::InvalidFormat(_))
    ));
    // After an unrecoverable error the caller may reset past the bad
    // input and continue.
    parser.read_buf(b"+OK\r\n");
    parser.clear_buffer(1);
    assert_eq!(
        parser.try_parse(),
        Ok(Some(RespValue::SimpleString(b"OK".to_vec())))
    );
}

#[test]
fn double_rejects_malformed_text() {
    for bad in [
        &b",abc\r\n"[..],
        b",1.2.3\r\n",
        b",1e\r\n",
        b",.\r\n",
        b",++1\r\n",
        b",\r\n",
        b",infx\r\n",
    ] {
        let mut parser = Parser::new(100, 1000);
        parser.read_buf(bad);
        let result = parser.try_parse();
        assert!(
            matches!(result, Err(ParseError::InvalidFormat(_))),
            "expected rejection of {:?}, got {:?}",
            bad,
            result
        );
    }
}

#[test]
fn double_accepts_fringe_forms() {
    for (text, expect) in [
        (&b",3.\r\n"[..], 3.0f64),
        (b",.5\r\n", 0.5),
        (b",+2\r\n", 2.0),
        (b",Infinity\r\n", f64::INFINITY),
        (b",1E-2\r\n", 0.01),
    ] {
        let mut parser = Parser::new(100, 1000);
        parser.read_buf(text);
        match parser.try_parse() {
            Ok(Some(RespValue::Double(t))) => {
                let d: f64 = std::str::from_utf8(&t).unwrap().parse().unwrap();
                assert_eq!(d, expect);
            }
            other => panic!("expected a double from {:?}, got {:?}", text, other),
        }
    }
}

#[test]
fn buffer_view_reflects_unconsumed_input() {
    let mut parser = Parser::new(100, 1000);
    parser.read_buf(b"+OK\r\n:1");
    assert_eq!(parser.try_parse(), Ok(Some(RespValue::SimpleString(b"OK".to_vec()))));
    // Feeding again compacts the consumed prefix away.
    parser.read_buf(b"\r\n");
    assert_eq!(parser.buffer().as_ref() as &[u8], b":1\r\n");
    assert_eq!(parser.try_parse(), Ok(Some(RespValue::Integer(1))));
}
