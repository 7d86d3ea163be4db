use stream_resp::parser::{ParseError, Parser};
use stream_resp::resp::RespValue;

#[test]
fn test_with_debug_log() {
    let mut parser = Parser::new(100, 1000);

    parser.read_buf(b"+simple string\r\n");
    let result = match parser.try_parse() {
        Ok(Some(val)) => val,
        Ok(None) => panic!("Expected complete value"),
        Err(e) => panic!("Parse error: {:?}", e),
    };
    assert_eq!(result, RespValue::SimpleString(b"simple string".to_vec()));
}

#[test]
fn parser_test_test_simple_string() {
    let mut parser = Parser::new(100, 1000);

    parser.read_buf(b"+OK\r\n");
    let result = match parser.try_parse() {
        Ok(Some(val)) => val,
        Ok(None) => panic!("Expected complete value"),
        Err(e) => panic!("Parse error: {:?}", e),
    };
    assert_eq!(result, RespValue::SimpleString(b"OK".to_vec()));

    parser.read_buf(b"+Hello World\r\n");
    let result = match parser.try_parse() {
        Ok(Some(val)) => val,
        Ok(None) => panic!("Expected complete value"),
        Err(e) => panic!("Parse error: {:?}", e),
    };
    assert_eq!(result, RespValue::SimpleString(b"Hello World".to_vec()));

    parser.read_buf(b"+Hello@#$%^&*()\r\n");
    let result = match parser.try_parse() {
        Ok(Some(val)) => val,
        Ok(None) => panic!("Expected complete value"),
        Err(e) => panic!("Parse error: {:?}", e),
    };
    assert_eq!(result, RespValue::SimpleString(b"Hello@#$%^&*()".to_vec()));

    parser.read_buf(b"+Invalid\rData\r\n");
    let result = parser.try_parse();
    assert_eq!(
        result,
        Err(ParseError::InvalidFormat(
            "Simple string cannot contain CR or LF".to_string()
        ))
    );

    parser.read_buf(b"+Invalid\nData\r\n");
    let result = parser.try_parse();
    assert_eq!(
        result,
        Err(ParseError::InvalidFormat(
            "Simple string cannot contain CR or LF".to_string()
        ))
    );
}

#[test]
fn parser_test_test_null() {
    let mut parser = Parser::new(100, 1000);

    parser.read_buf(b"_\r\n");
    let result = match parser.try_parse() {
        Ok(Some(val)) => val,
        Ok(None) => panic!("Expected complete value"),
        Err(e) => panic!("Parse error: {:?}", e),
    };
    assert_eq!(result, RespValue::Null);
}

#[test]
fn parser_test_test_boolean() {
    let mut parser = Parser::new(100, 1000);

    parser.read_buf(b"#t\r\n");
    let result = match parser.try_parse() {
        Ok(Some(val)) => val,
        Ok(None) => panic!("Expected complete value"),
        Err(e) => panic!("Parse error: {:?}", e),
    };
    assert_eq!(result, RespValue::Boolean(true));

    parser.read_buf(b"#f\r\n");
    let result = match parser.try_parse() {
        Ok(Some(val)) => val,
        Ok(None) => panic!("Expected complete value"),
        Err(e) => panic!("Parse error: {:?}", e),
    };
    assert_eq!(result, RespValue::Boolean(false));

    parser.read_buf(b"#x\r\n");
    let result = parser.try_parse();
    assert!(matches!(result, Err(ParseError::InvalidFormat(_))));
}

#[test]
fn parser_test_test_double() {
    let mut parser = Parser::new(100, 1000);

    parser.read_buf(b",3.14\r\n");
    let result = match parser.try_parse() {
        Ok(Some(val)) => val,
        Ok(None) => panic!("Expected complete value"),
        Err(e) => panic!("Parse error: {:?}", e),
    };
    assert_eq!(result, RespValue::Double(b"3.14".to_vec()));
    match &result {
        RespValue::Double(t) => {
            let d: f64 = std::str::from_utf8(t).unwrap().parse().unwrap();
            assert_eq!(d, 3.14);
        }
        _ => panic!("Wrong variant"),
    }

    parser.read_buf(b",-2.5\r\n");
    let result = match parser.try_parse() {
        Ok(Some(val)) => val,
        Ok(None) => panic!("Expected complete value"),
        Err(e) => panic!("Parse error: {:?}", e),
    };
    match &result {
        RespValue::Double(t) => {
            let d: f64 = std::str::from_utf8(t).unwrap().parse().unwrap();
            assert_eq!(d, -2.5);
        }
        _ => panic!("Wrong variant"),
    }

    parser.read_buf(b",inf\r\n");
    let result = match parser.try_parse() {
        Ok(Some(val)) => val,
        Ok(None) => panic!("Expected complete value"),
        Err(e) => panic!("Parse error: {:?}", e),
    };
    match &result {
        RespValue::Double(t) => {
            let d: f64 = std::str::from_utf8(t).unwrap().parse().unwrap();
            assert!(d.is_infinite() && d.is_sign_positive());
        }
        _ => panic!("Wrong variant"),
    }

    parser.read_buf(b",-inf\r\n");
    let result = match parser.try_parse() {
        Ok(Some(val)) => val,
        Ok(None) => panic!("Expected complete value"),
        Err(e) => panic!("Parse error: {:?}", e),
    };
    match &result {
        RespValue::Double(t) => {
            let d: f64 = std::str::from_utf8(t).unwrap().parse().unwrap();
            assert!(d.is_infinite() && d.is_sign_negative());
        }
        _ => panic!("Wrong variant"),
    }

    parser.read_buf(b",nan\r\n");
    let result = parser.try_parse();
    assert!(matches!(result, Ok(Some(RespValue::Double(_)))));

    parser.read_buf(b",1.23e4\r\n");
    let result = match parser.try_parse() {
        Ok(Some(val)) => val,
        Ok(None) => panic!("Expected complete value"),
        Err(e) => panic!("Parse error: {:?}", e),
    };
    match &result {
        RespValue::Double(t) => {
            let d: f64 = std::str::from_utf8(t).unwrap().parse().unwrap();
            assert_eq!(d, 12300.0);
        }
        _ => panic!("Wrong variant"),
    }

    parser.read_buf(b",-1.23E-4\r\n");
    let result = match parser.try_parse() {
        Ok(Some(val)) => val,
        Ok(None) => panic!("Expected complete value"),
        Err(e) => panic!("Parse error: {:?}", e),
    };
    match &result {
        RespValue::Double(t) => {
            let d: f64 = std::str::from_utf8(t).unwrap().parse().unwrap();
            assert_eq!(d, -0.000123);
        }
        _ => panic!("Wrong variant"),
    }
}

#[test]
fn parser_test_test_big_number() {
    let mut parser = Parser::new(100, 1000);

    parser.read_buf(b"(3492890328409238509324850943850943825024385\r\n");
    let result = match parser.try_parse() {
        Ok(Some(val)) => val,
        Ok(None) => panic!("Expected complete value"),
        Err(e) => panic!("Parse error: {:?}", e),
    };
    assert_eq!(
        result,
        RespValue::BigNumber(b"3492890328409238509324850943850943825024385".to_vec())
    );

    parser.read_buf(b"(-0\r\n");
    let result = match parser.try_parse() {
        Ok(Some(val)) => val,
        Ok(None) => panic!("Expected complete value"),
        Err(e) => panic!("Parse error: {:?}", e),
    };
    assert_eq!(result, RespValue::BigNumber(b"-0".to_vec()));

    parser.read_buf(b"(00123\r\n");
    let result = match parser.try_parse() {
        Ok(Some(val)) => val,
        Ok(None) => panic!("Expected complete value"),
        Err(e) => panic!("Parse error: {:?}", e),
    };
    assert_eq!(result, RespValue::BigNumber(b"00123".to_vec()));

    parser.read_buf(b"(123a45\r\n");
    let result = parser.try_parse();
    assert!(matches!(result, Err(ParseError::InvalidFormat(_))));
}

#[test]
fn parser_test_test_bulk_error() {
    let mut parser = Parser::new(100, 1000);

    parser.read_buf(b"!Error details\r\n");
    let result = match parser.try_parse() {
        Ok(Some(val)) => val,
        Ok(None) => panic!("Expected complete value"),
        Err(e) => panic!("Parse error: {:?}", e),
    };
    assert_eq!(result, RespValue::BulkError(Some(b"Error details".to_vec())));

    parser.read_buf(b"!-1\r\n");
    let result = match parser.try_parse() {
        Ok(Some(val)) => val,
        Ok(None) => panic!("Expected complete value"),
        Err(e) => panic!("Parse error: {:?}", e),
    };
    assert_eq!(result, RespValue::BulkError(None));
}

#[test]
fn parser_test_test_verbatim_string() {
    let mut parser = Parser::new(100, 1000);

    parser.read_buf(b"=txt:Some verbatim text\r\n");
    let result = match parser.try_parse() {
        Ok(Some(val)) => val,
        Ok(None) => panic!("Expected complete value"),
        Err(e) => panic!("Parse error: {:?}", e),
    };
    assert_eq!(
        result,
        RespValue::VerbatimString(Some(b"txt:Some verbatim text".to_vec()))
    );

    parser.read_buf(b"=-1\r\n");
    let result = match parser.try_parse() {
        Ok(Some(val)) => val,
        Ok(None) => panic!("Expected complete value"),
        Err(e) => panic!("Parse error: {:?}", e),
    };
    assert_eq!(result, RespValue::VerbatimString(None));

    parser.read_buf(b"=txt:\r\n");
    let result = match parser.try_parse() {
        Ok(Some(val)) => val,
        Ok(None) => panic!("Expected complete value"),
        Err(e) => panic!("Parse error: {:?}", e),
    };
    assert_eq!(result, RespValue::VerbatimString(Some(b"txt:".to_vec())));
}

#[test]
fn parser_test_test_map() {
    let mut parser = Parser::new(100, 1000);

    parser.read_buf(b"%2\r\n+key1\r\n:123\r\n+key2\r\n$5\r\nvalue\r\n");
    let result = match parser.try_parse() {
        Ok(Some(val)) => val,
        Ok(None) => panic!("Expected complete value"),
        Err(e) => panic!("Parse error: {:?}", e),
    };
    assert_eq!(
        result,
        RespValue::MapVal(Some(vec![
            (
                RespValue::SimpleString(b"key1".to_vec()),
                RespValue::Integer(123)
            ),
            (
                RespValue::SimpleString(b"key2".to_vec()),
                RespValue::BulkString(Some(b"value".to_vec()))
            )
        ]))
    );

    parser.read_buf(b"%3\r\n+key1\r\n:1\r\n+key2\r\n");
    let result = parser.try_parse();
    assert!(matches!(result, Err(ParseError::UnexpectedEof)));

    parser.read_buf(b":2\r\n+key3\r\n");
    let result = parser.try_parse();
    assert!(matches!(result, Err(ParseError::UnexpectedEof)));

    parser.read_buf(b":3\r\n");
    let result = parser.try_parse();
    assert_eq!(
        result,
        Ok(Some(RespValue::MapVal(Some(vec![
            (
                RespValue::SimpleString(b"key1".to_vec()),
                RespValue::Integer(1)
            ),
            (
                RespValue::SimpleString(b"key2".to_vec()),
                RespValue::Integer(2)
            ),
            (
                RespValue::SimpleString(b"key3".to_vec()),
                RespValue::Integer(3)
            ),
        ])))),
        "Failed to parse valid map with 3 pairs, got {:?}",
        result
    );

    parser.read_buf(b"%0\r\n");
    let result = parser.try_parse();
    assert_eq!(result, Ok(Some(RespValue::MapVal(Some(vec![])))));

    parser.read_buf(b"%-1\r\n");
    let result = parser.try_parse();
    assert_eq!(result, Ok(Some(RespValue::MapVal(None))));

    parser.read_buf(b"%2\r\n+key1\r\n_\r\n+key2\r\n$0\r\n\r\n");
    let result = parser.try_parse();
    assert_eq!(
        result,
        Ok(Some(RespValue::MapVal(Some(vec![
            (RespValue::SimpleString(b"key1".to_vec()), RespValue::Null),
            (
                RespValue::SimpleString(b"key2".to_vec()),
                RespValue::BulkString(Some(b"".to_vec()))
            )
        ]))))
    );
}

#[test]
fn parser_test_test_set() {
    let mut parser = Parser::new(100, 1000);

    parser.read_buf(b"~3\r\n:1\r\n+two\r\n$5\r\nthree\r\n");
    let result = match parser.try_parse() {
        Ok(Some(val)) => val,
        Ok(None) => panic!("Expected complete value"),
        Err(e) => panic!("Parse error: {:?}", e),
    };
    assert_eq!(
        result,
        RespValue::SetVal(Some(vec![
            RespValue::Integer(1),
            RespValue::SimpleString(b"two".to_vec()),
            RespValue::BulkString(Some(b"three".to_vec()))
        ]))
    );

    parser = Parser::new(100, 1000);
    parser.read_buf(b"~0\r\n");
    assert_eq!(parser.try_parse(), Ok(Some(RespValue::SetVal(Some(vec![])))));

    parser = Parser::new(100, 1000);
    parser.read_buf(b"~-1\r\n");
    assert_eq!(parser.try_parse(), Ok(Some(RespValue::SetVal(None))));
}

#[test]
fn parser_test_test_push() {
    let mut parser = Parser::new(100, 1000);

    parser.read_buf(b">2\r\n+message\r\n:42\r\n");
    let result = match parser.try_parse() {
        Ok(Some(val)) => val,
        Ok(None) => panic!("Expected complete value"),
        Err(e) => panic!("Parse error: {:?}", e),
    };
    assert_eq!(
        result,
        RespValue::Push(Some(vec![
            RespValue::SimpleString(b"message".to_vec()),
            RespValue::Integer(42)
        ]))
    );

    parser = Parser::new(100, 1000);
    parser.read_buf(b">0\r\n");
    assert_eq!(parser.try_parse(), Ok(Some(RespValue::Push(Some(vec![])))));

    parser = Parser::new(100, 1000);
    parser.read_buf(b">-1\r\n");
    assert_eq!(parser.try_parse(), Ok(Some(RespValue::Push(None))));
}

#[test]
fn parser_test_test_error() {
    let mut parser = Parser::new(100, 1000);

    parser.read_buf(b"-Error message\r\n");
    let result = match parser.try_parse() {
        Ok(Some(val)) => val,
        Ok(None) => panic!("Expected complete value"),
        Err(e) => panic!("Parse error: {:?}", e),
    };
    assert_eq!(result, RespValue::Error(b"Error message".to_vec()));

    parser.read_buf(b"-\r\n");
    let result = match parser.try_parse() {
        Ok(Some(val)) => val,
        Ok(None) => panic!("Expected complete value"),
        Err(e) => panic!("Parse error: {:?}", e),
    };
    assert_eq!(result, RespValue::Error(b"".to_vec()));

    parser.read_buf(b"-ERR unknown command 'foobar'\r\n");
    let result = match parser.try_parse() {
        Ok(Some(val)) => val,
        Ok(None) => panic!("Expected complete value"),
        Err(e) => panic!("Parse error: {:?}", e),
    };
    assert_eq!(result, RespValue::Error(b"ERR unknown command 'foobar'".to_vec()));

    // An error line with an embedded CR or LF is rejected, like a simple
    // string.
    parser.read_buf(b"-Invalid\rData\r\n");
    let result = parser.try_parse();
    assert!(
        matches!(result, Err(ParseError::InvalidFormat(_))),
        "Expected InvalidFormat for CR in error, got {:?}",
        result
    );

    let mut parser = Parser::new(100, 1000);
    parser.read_buf(b"-Invalid\nData\r\n");
    let result = parser.try_parse();
    assert!(
        matches!(result, Err(ParseError::InvalidFormat(_))),
        "Expected InvalidFormat for LF in error, got {:?}",
        result
    );
}

#[test]
fn parser_test_test_integer() {
    let mut parser = Parser::new(100, 1000);

    parser.read_buf(b":1234\r\n");
    let result = match parser.try_parse() {
        Ok(Some(val)) => val,
        Ok(None) => panic!("Expected complete value"),
        Err(e) => panic!("Parse error: {:?}", e),
    };
    assert_eq!(result, RespValue::Integer(1234));

    parser.read_buf(b":-1234\r\n");
    let result = match parser.try_parse() {
        Ok(Some(val)) => val,
        Ok(None) => panic!("Expected complete value"),
        Err(e) => panic!("Parse error: {:?}", e),
    };
    assert_eq!(result, RespValue::Integer(-1234));

    parser.read_buf(b":0\r\n");
    let result = match parser.try_parse() {
        Ok(Some(val)) => val,
        Ok(None) => panic!("Expected complete value"),
        Err(e) => panic!("Parse error: {:?}", e),
    };
    assert_eq!(result, RespValue::Integer(0));

    parser.read_buf(format!(":{}\r\n", i64::MAX).as_bytes());
    let result = match parser.try_parse() {
        Ok(Some(val)) => val,
        Ok(None) => panic!("Expected complete value"),
        Err(e) => panic!("Parse error: {:?}", e),
    };
    assert_eq!(result, RespValue::Integer(i64::MAX));

    parser.read_buf(format!(":{}\r\n", i64::MIN).as_bytes());
    let result = match parser.try_parse() {
        Ok(Some(val)) => val,
        Ok(None) => panic!("Expected complete value"),
        Err(e) => panic!("Parse error: {:?}", e),
    };
    assert_eq!(result, RespValue::Integer(i64::MIN));

    parser.read_buf(b":007\r\n");
    let result = match parser.try_parse() {
        Ok(Some(val)) => val,
        Ok(None) => panic!("Expected complete value"),
        Err(e) => panic!("Parse error: {:?}", e),
    };
    assert_eq!(result, RespValue::Integer(7));

    parser.read_buf(b":-0\r\n");
    let result = match parser.try_parse() {
        Ok(Some(val)) => val,
        Ok(None) => panic!("Expected complete value"),
        Err(e) => panic!("Parse error: {:?}", e),
    };
    assert_eq!(result, RespValue::Integer(0));

    // An explicit positive sign is rejected unless the option is on.
    {
        let mut parser = Parser::new(100, 1000);
        parser.read_buf(b":+123\r\n");
        let result = parser.try_parse();
        assert!(
            matches!(result, Err(ParseError::InvalidFormat(_))),
            "Expected InvalidFormat for explicit '+' by default, got {:?}",
            result
        );
    }

    // Overflow check (slightly above max).
    let overflow_num_str = format!("{}1", i64::MAX);
    parser.read_buf(format!(":{}\r\n", overflow_num_str).as_bytes());
    let result = parser.try_parse();
    assert!(
        matches!(
            result,
            Err(ParseError::Overflow) | Err(ParseError::InvalidFormat(_))
        ),
        "Expected Overflow or InvalidFormat for integer overflow, got {:?}",
        result
    );

    // Just a minus sign. The overflow above is fatal for the stream, so a
    // fresh parser sees this input.
    let mut parser = Parser::new(100, 1000);
    parser.read_buf(b":-\r\n");
    let result = parser.try_parse();
    assert!(
        matches!(result, Err(ParseError::InvalidFormat(_))),
        "Expected InvalidFormat for ':-', got {:?}",
        result
    );
}

#[test]
fn test_invalid_type_marker() {
    let mut parser = Parser::new(100, 1000);
    parser.read_buf(b"x1234");
    match parser.try_parse() {
        Err(ParseError::InvalidFormat(_)) => (),
        other => panic!("Expected InvalidFormat error, got {:?}", other),
    }
}

#[test]
fn test_invalid_length() {
    let mut parser = Parser::new(100, 1000);
    parser.read_buf(b"$-2");
    match parser.try_parse() {
        Err(ParseError::UnexpectedEof) => (),
        other => panic!("Expected UnexpectedEof for incomplete data, got {:?}", other),
    }

    parser.read_buf(b"\r\n");
    match parser.try_parse() {
        Ok(Some(RespValue::BulkString(None))) => (),
        other => panic!("Expected BulkString(None) based on parser logic, got {:?}", other),
    }
}

#[test]
fn test_array_length_mismatch() {
    let mut parser = Parser::new(100, 1000);
    parser.read_buf(b"*2\r\n+OK\r\n");
    match parser.try_parse() {
        Err(ParseError::UnexpectedEof) => (),
        other => panic!("Expected None for incomplete array, got {:?}", other),
    }
}

#[test]
fn test_invalid_integer_format() {
    let mut parser = Parser::new(100, 1000);
    parser.read_buf(b":12.34");
    match parser.try_parse() {
        Err(ParseError::UnexpectedEof) => (),
        other => panic!("Expected None for incomplete data, got {:?}", other),
    }

    parser.read_buf(b"\r\n");
    match parser.try_parse() {
        Err(ParseError::InvalidFormat(_)) => (),
        other => panic!("Expected InvalidFormat error, got {:?}", other),
    }
}

#[test]
fn test_missing_crlf() {
    let mut parser = Parser::new(100, 1000);
    parser.read_buf(b"+OK\n");
    match parser.try_parse() {
        Err(ParseError::UnexpectedEof) => (),
        other => panic!("Expected InvalidFormat error, got {:?}", other),
    }
}

#[test]
fn test_exceeding_maximum_depth() {
    let mut shallow_parser = Parser::new(1, 1000);
    shallow_parser.read_buf(b"*1\r\n");
    match shallow_parser.try_parse() {
        Err(ParseError::UnexpectedEof) => (),
        other => panic!("Expected None for incomplete data, got {:?}", other),
    }

    shallow_parser.read_buf(b"*1\r\n");
    match shallow_parser.try_parse() {
        Err(ParseError::InvalidDepth) => (),
        other => panic!("Expected None for incomplete data, got {:?}", other),
    }

    shallow_parser.read_buf(b"+OK\r\n");
    match shallow_parser.try_parse() {
        Err(ParseError::InvalidDepth) => (),
        other => panic!(
            "Expected InvalidFormat error for exceeding maximum depth, got {:?}",
            other
        ),
    }
}

#[test]
fn test_incomplete_messages() {
    let mut parser = Parser::new(100, 1000);

    parser.read_buf(b"+OK");
    match parser.try_parse() {
        Err(ParseError::UnexpectedEof) => (),
        other => panic!("Expected None for incomplete simple string, got {:?}", other),
    }

    parser = Parser::new(100, 1000);

    parser.read_buf(b"-ERR");
    match parser.try_parse() {
        Err(ParseError::UnexpectedEof) => (),
        other => panic!("Expected None for incomplete error message, got {:?}", other),
    }

    parser = Parser::new(100, 1000);

    parser.read_buf(b":123");
    match parser.try_parse() {
        Err(ParseError::UnexpectedEof) => (),
        other => panic!("Expected None for incomplete integer, got {:?}", other),
    }

    parser = Parser::new(100, 1000);

    parser.read_buf(b"$5");
    match parser.try_parse() {
        Err(ParseError::UnexpectedEof) => (),
        other => panic!("Expected None for incomplete bulk string length, got {:?}", other),
    }

    parser = Parser::new(100, 1000);

    parser.read_buf(b"*3");
    match parser.try_parse() {
        Err(ParseError::UnexpectedEof) => (),
        other => panic!("Expected None for incomplete array length, got {:?}", other),
    }
}

#[test]
fn test_large_bulk_string_chunks() {
    let mut parser = Parser::new(100, 10000);

    let large_string = "x".repeat(1000);
    let _message = format!("${}\r\n{}\r\n", large_string.len(), large_string);

    parser.read_buf(format!("${}\r\n", large_string.len()).as_bytes());
    match parser.try_parse() {
        Err(ParseError::NotEnoughData) => (),
        other => panic!("Expected None, got {:?}", other),
    }

    let chunks = large_string.as_bytes().chunks(100);
    for chunk in chunks {
        parser.read_buf(chunk);
        match parser.try_parse() {
            Err(ParseError::NotEnoughData) => (),
            other => panic!("Expected None, got {:?}", other),
        }
    }

    parser.read_buf(b"\r\n");
    match parser.try_parse() {
        Ok(Some(RespValue::BulkString(Some(msg)))) => {
            assert_eq!(msg, large_string.as_bytes());
        }
        other => panic!("Expected BulkString, got {:?}", other),
    }
}

#[test]
fn test_large_aggregate_chunks() {
    let mut parser = Parser::new(100, 10000);

    let num_elements = 1000;
    parser.read_buf(format!("*{}\r\n", num_elements).as_bytes());
    match parser.try_parse() {
        Err(ParseError::UnexpectedEof) => (),
        other => panic!("Expected UnexpectedEof after large array header, got {:?}", other),
    }

    for i in 0..num_elements {
        parser.read_buf(format!(":{}\r\n", i).as_bytes());
        if i < num_elements - 1 {
            match parser.try_parse() {
                Err(ParseError::UnexpectedEof) => (),
                other => panic!(
                    "Expected UnexpectedEof while reading large array elements, got {:?}",
                    other
                ),
            }
        }
    }

    match parser.try_parse() {
        Ok(Some(RespValue::Array(Some(arr)))) => {
            assert_eq!(arr.len(), num_elements);
            for (i, val) in arr.iter().enumerate() {
                assert_eq!(*val, RespValue::Integer(i as i64));
            }
        }
        other => panic!("Expected Array after all elements, got {:?}", other),
    }
}

#[test]
fn test_error_message_chunks() {
    let mut parser = Parser::new(100, 1000);

    parser.read_buf(b"-ERR unknow");
    match parser.try_parse() {
        Err(ParseError::UnexpectedEof) => (),
        other => panic!("Expected None, got {:?}", other),
    }

    parser.read_buf(b"n command");
    match parser.try_parse() {
        Err(ParseError::UnexpectedEof) => (),
        other => panic!("Expected None, got {:?}", other),
    }

    parser.read_buf(b"\r\n");
    match parser.try_parse() {
        Ok(Some(RespValue::Error(msg))) => {
            assert_eq!(msg, b"ERR unknown command");
        }
        other => panic!("Expected Error message, got {:?}", other),
    }
}

#[test]
fn test_bulk_string_chunks() {
    {
        let mut parser = Parser::new(100, 1000);
        parser.read_buf(b"$0\r\n\r\n");
        let result = parser.try_parse();
        assert_eq!(result, Ok(Some(RespValue::BulkString(Some(b"".to_vec())))));
    }

    {
        let mut parser = Parser::new(100, 1000);

        parser.read_buf(b"$0\r\n");
        let result = parser.try_parse();
        assert!(
            matches!(
                result,
                Err(ParseError::UnexpectedEof) | Err(ParseError::NotEnoughData)
            ),
            "Expected Error for incomplete empty string, got {:?}",
            result
        );

        parser.read_buf(b"\r\n");
        let result = parser.try_parse();
        assert_eq!(
            result,
            Ok(Some(RespValue::BulkString(Some(b"".to_vec())))),
            "Failed on second chunk for empty string"
        );
    }

    {
        let mut parser = Parser::new(100, 1000);

        parser.read_buf(b"$5");
        let result = parser.try_parse();
        assert!(
            matches!(result, Err(ParseError::UnexpectedEof)),
            "Expected EOF on partial length, got {:?}",
            result
        );

        parser.read_buf(b"\r\nhel");
        let result = parser.try_parse();
        assert!(
            matches!(result, Err(ParseError::NotEnoughData)),
            "Expected NotEnoughData on partial data, got {:?}",
            result
        );

        parser.read_buf(b"lo\r\n");
        let result = parser.try_parse();
        assert_eq!(
            result,
            Ok(Some(RespValue::BulkString(Some(b"hello".to_vec())))),
            "Failed on final chunk"
        );
    }

    {
        let mut parser = Parser::new(100, 1000);

        parser.read_buf(b"$12\r\n");
        let result = parser.try_parse();
        assert!(
            matches!(result, Err(ParseError::NotEnoughData)),
            "Expected NotEnoughData after header, got {:?}",
            result
        );

        parser.read_buf(b"Hello ");
        let result = parser.try_parse();
        assert!(
            matches!(result, Err(ParseError::NotEnoughData)),
            "Expected NotEnoughData after partial data, got {:?}",
            result
        );

        parser.read_buf(b"World!");
        let result = parser.try_parse();
        assert!(
            matches!(result, Err(ParseError::NotEnoughData)),
            "Expected NotEnoughData after full data, got {:?}",
            result
        );

        parser.read_buf(b"\r\n");
        let result = parser.try_parse();
        assert_eq!(
            result,
            Ok(Some(RespValue::BulkString(Some(b"Hello World!".to_vec())))),
            "Failed on final chunk for chunked bulk string"
        );
    }

    {
        let mut parser = Parser::new(100, 1000);
        parser.read_buf(b"$-1\r\n");
        let result = parser.try_parse();
        assert_eq!(
            result,
            Ok(Some(RespValue::BulkString(None))),
            "Failed on Null Bulk String"
        );
    }

    {
        let mut parser = Parser::new(100, 1000);
        let content = "hello\r\nworld";
        parser.read_buf(format!("${}\r\n{}\r\n", content.len(), content).as_bytes());
        let result = parser.try_parse();
        assert_eq!(
            result,
            Ok(Some(RespValue::BulkString(Some(content.as_bytes().to_vec())))),
            "Failed on Bulk String with CRLF"
        );
    }

    {
        let mut parser = Parser::new(100, 1000);
        let invalid_utf8: &[u8] = &[
            0x68, 0x65, 0x6c, 0x6c, 0x6f, 0x80, 0x77, 0x6f, 0x72, 0x6c, 0x64,
        ];
        parser.read_buf(format!("${}\r\n", invalid_utf8.len()).as_bytes());
        parser.read_buf(invalid_utf8);
        parser.read_buf(b"\r\n");
        let result = parser.try_parse();
        assert!(
            matches!(result, Err(ParseError::InvalidUtf8)),
            "Expected InvalidUtf8 error, got {:?}",
            result
        );
    }

    {
        let max_len = 50;
        let mut parser = Parser::new(10, max_len);
        let long_string = "a".repeat(max_len + 1);
        parser.read_buf(format!("${}\r\n", long_string.len()).as_bytes());
        parser.read_buf(long_string.as_bytes());
        parser.read_buf(b"\r\n");
        let result = parser.try_parse();
        assert!(
            matches!(result, Err(ParseError::InvalidLength)),
            "Expected InvalidLength error, got {:?}",
            result
        );
    }
}

#[test]
fn test_array_chunks() {
    {
        let mut parser = Parser::new(100, 1000);

        parser.read_buf(b"*2");
        let _ = parser.try_parse();

        parser.read_buf(b"\r\n:1");
        let _ = parser.try_parse();

        parser.read_buf(b"\r\n");
        let _ = parser.try_parse();

        parser.read_buf(b":2\r\n");
        let result = parser.try_parse();
        assert_eq!(
            result,
            Ok(Some(RespValue::Array(Some(vec![
                RespValue::Integer(1),
                RespValue::Integer(2)
            ]))))
        );
    }

    {
        let mut parser = Parser::new(100, 1000);
        parser.read_buf(b"*0\r\n");
        let result = parser.try_parse();
        assert_eq!(
            result,
            Ok(Some(RespValue::Array(Some(vec![])))),
            "Failed on Empty Array *0"
        );
    }

    {
        let mut parser = Parser::new(100, 1000);
        parser.read_buf(b"*-1\r\n");
        let result = parser.try_parse();
        assert_eq!(result, Ok(Some(RespValue::Array(None))), "Failed on Null Array *-1");
    }

    {
        let mut parser = Parser::new(100, 1000);

        parser.read_buf(b"*3\r\n:123\r\n");
        let _ = parser.try_parse();

        parser.read_buf(b"+hello\r\n");
        let _ = parser.try_parse();

        parser.read_buf(b"$5\r\nworld\r\n");
        let result = parser.try_parse();
        assert_eq!(
            result,
            Ok(Some(RespValue::Array(Some(vec![
                RespValue::Integer(123),
                RespValue::SimpleString(b"hello".to_vec()),
                RespValue::BulkString(Some(b"world".to_vec()))
            ]))))
        );
    }

    {
        let mut parser = Parser::new(100, 1000);

        parser.read_buf(b"*2\r\n");
        let result = parser.try_parse();
        assert_eq!(result, Err(ParseError::UnexpectedEof));

        parser.read_buf(b"*2\r\n+a\r\n+b\r\n");
        let result = parser.try_parse();
        assert_eq!(result, Err(ParseError::UnexpectedEof));

        parser.read_buf(b"*2\r\n+c\r\n+d\r\n");
        let result = parser.try_parse();
        assert_eq!(
            result,
            Ok(Some(RespValue::Array(Some(vec![
                RespValue::Array(Some(vec![
                    RespValue::SimpleString(b"a".to_vec()),
                    RespValue::SimpleString(b"b".to_vec())
                ])),
                RespValue::Array(Some(vec![
                    RespValue::SimpleString(b"c".to_vec()),
                    RespValue::SimpleString(b"d".to_vec())
                ]))
            ]))))
        );
    }

    {
        let mut parser = Parser::new(100, 1000);

        parser.read_buf(b"*-2\r\n");
        let result = parser.try_parse();
        assert_eq!(
            result,
            Ok(Some(RespValue::Array(None))),
            "Failed on Array *-2 (Parser maps to Null)"
        );

        parser = Parser::new(100, 1000);

        parser.read_buf(b"*2\r\n:1\r\n");
        let result = parser.try_parse();
        assert!(
            matches!(result, Err(ParseError::UnexpectedEof)),
            "Expected EOF for incomplete array, got {:?}",
            result
        );
    }

    {
        let mut parser = Parser::new(100, 1000);
        parser.read_buf(b"*3\r\n$5\r\nhello\r\n$-1\r\n$0\r\n\r\n");
        let result = parser.try_parse();
        assert_eq!(
            result,
            Ok(Some(RespValue::Array(Some(vec![
                RespValue::BulkString(Some(b"hello".to_vec())),
                RespValue::BulkString(None),
                RespValue::BulkString(Some(b"".to_vec()))
            ])))),
            "Failed on array with null/empty bulk strings"
        );
    }

    {
        let mut parser = Parser::new(100, 1000);
        parser.read_buf(b"*3\r\n*0\r\n*-1\r\n*1\r\n+OK\r\n");
        let result = parser.try_parse();
        assert_eq!(
            result,
            Ok(Some(RespValue::Array(Some(vec![
                RespValue::Array(Some(vec![])),
                RespValue::Array(None),
                RespValue::Array(Some(vec![RespValue::SimpleString(b"OK".to_vec())]))
            ])))),
            "Failed on nested null/empty arrays"
        );
    }
}

#[test]
fn test_null_chunks() {
    let mut parser = Parser::new(100, 1000);

    parser.read_buf(b"_");
    assert!(matches!(parser.try_parse(), Err(ParseError::UnexpectedEof)));

    parser.read_buf(b"\r\n");
    assert_eq!(parser.try_parse(), Ok(Some(RespValue::Null)));
}

#[test]
fn test_boolean_chunks() {
    let mut parser = Parser::new(100, 1000);

    parser.read_buf(b"#");
    assert!(matches!(parser.try_parse(), Err(ParseError::UnexpectedEof)));
    parser.read_buf(b"t");
    assert!(matches!(parser.try_parse(), Err(ParseError::UnexpectedEof)));
    parser.read_buf(b"\r\n");
    assert_eq!(parser.try_parse(), Ok(Some(RespValue::Boolean(true))));

    parser.read_buf(b"#f");
    assert!(matches!(parser.try_parse(), Err(ParseError::UnexpectedEof)));
    parser.read_buf(b"\r\n");
    assert_eq!(parser.try_parse(), Ok(Some(RespValue::Boolean(false))));
}

#[test]
fn test_double_chunks() {
    let mut parser = Parser::new(100, 1000);

    parser.read_buf(b",3.");
    assert!(matches!(parser.try_parse(), Err(ParseError::UnexpectedEof)));
    parser.read_buf(b"14");
    assert!(matches!(parser.try_parse(), Err(ParseError::UnexpectedEof)));
    parser.read_buf(b"\r\n");
    assert_eq!(parser.try_parse(), Ok(Some(RespValue::Double(b"3.14".to_vec()))));
}

#[test]
fn test_big_number_chunks() {
    let mut parser = Parser::new(100, 1000);
    let big_num = "3492890328409238509324850943850943825024385";

    parser.read_buf(b"(34928903");
    assert!(matches!(parser.try_parse(), Err(ParseError::UnexpectedEof)));
    parser.read_buf(big_num[8..].as_bytes());
    assert!(matches!(parser.try_parse(), Err(ParseError::UnexpectedEof)));
    parser.read_buf(b"\r\n");
    assert_eq!(
        parser.try_parse(),
        Ok(Some(RespValue::BigNumber(big_num.as_bytes().to_vec())))
    );
}

#[test]
fn test_bulk_error_chunks() {
    let mut parser = Parser::new(100, 1000);

    parser.read_buf(b"!Error");
    assert!(matches!(parser.try_parse(), Err(ParseError::UnexpectedEof)));
    parser.read_buf(b" details");
    assert!(matches!(parser.try_parse(), Err(ParseError::UnexpectedEof)));
    parser.read_buf(b"\r\n");
    assert_eq!(
        parser.try_parse(),
        Ok(Some(RespValue::BulkError(Some(b"Error details".to_vec()))))
    );

    parser.read_buf(b"!-");
    assert!(matches!(parser.try_parse(), Err(ParseError::UnexpectedEof)));
    parser.read_buf(b"1");
    assert!(matches!(parser.try_parse(), Err(ParseError::UnexpectedEof)));
    parser.read_buf(b"\r\n");
    assert_eq!(parser.try_parse(), Ok(Some(RespValue::BulkError(None))));
}

#[test]
fn test_verbatim_string_chunks() {
    let mut parser = Parser::new(100, 1000);

    parser.read_buf(b"=txt:Some");
    assert!(matches!(parser.try_parse(), Err(ParseError::UnexpectedEof)));
    parser.read_buf(b" verbatim text");
    assert!(matches!(parser.try_parse(), Err(ParseError::UnexpectedEof)));
    parser.read_buf(b"\r\n");
    assert_eq!(
        parser.try_parse(),
        Ok(Some(RespValue::VerbatimString(Some(
            b"txt:Some verbatim text".to_vec()
        ))))
    );
}

#[test]
fn test_map_chunks() {
    let mut parser = Parser::new(100, 1000);

    parser.read_buf(b"%2\r\n");
    assert!(matches!(parser.try_parse(), Err(ParseError::UnexpectedEof)));
    parser.read_buf(b"+key1\r\n");
    assert!(matches!(parser.try_parse(), Err(ParseError::UnexpectedEof)));
    parser.read_buf(b":123\r\n");
    assert!(matches!(parser.try_parse(), Err(ParseError::UnexpectedEof)));
    parser.read_buf(b"+key2\r\n");
    assert!(matches!(parser.try_parse(), Err(ParseError::UnexpectedEof)));
    parser.read_buf(b"$5\r\n");
    assert!(matches!(parser.try_parse(), Err(ParseError::NotEnoughData)));
    parser.read_buf(b"value\r\n");
    assert_eq!(
        parser.try_parse(),
        Ok(Some(RespValue::MapVal(Some(vec![
            (
                RespValue::SimpleString(b"key1".to_vec()),
                RespValue::Integer(123)
            ),
            (
                RespValue::SimpleString(b"key2".to_vec()),
                RespValue::BulkString(Some(b"value".to_vec()))
            )
        ]))))
    );

    parser = Parser::new(100, 1000);
    parser.read_buf(b"%0");
    assert!(matches!(parser.try_parse(), Err(ParseError::UnexpectedEof)));
    parser.read_buf(b"\r\n");
    assert_eq!(parser.try_parse(), Ok(Some(RespValue::MapVal(Some(vec![])))));

    parser = Parser::new(100, 1000);
    parser.read_buf(b"%-1");
    assert!(matches!(parser.try_parse(), Err(ParseError::UnexpectedEof)));
    parser.read_buf(b"\r\n");
    assert_eq!(parser.try_parse(), Ok(Some(RespValue::MapVal(None))));
}

#[test]
fn test_set_chunks() {
    let mut parser = Parser::new(100, 1000);

    parser.read_buf(b"~3\r\n");
    assert!(matches!(parser.try_parse(), Err(ParseError::UnexpectedEof)));
    parser.read_buf(b":1\r\n");
    assert!(matches!(parser.try_parse(), Err(ParseError::UnexpectedEof)));
    parser.read_buf(b"+two\r\n");
    assert!(matches!(parser.try_parse(), Err(ParseError::UnexpectedEof)));
    parser.read_buf(b"$5\r\nthree\r\n");
    assert_eq!(
        parser.try_parse(),
        Ok(Some(RespValue::SetVal(Some(vec![
            RespValue::Integer(1),
            RespValue::SimpleString(b"two".to_vec()),
            RespValue::BulkString(Some(b"three".to_vec()))
        ]))))
    );

    parser = Parser::new(100, 1000);
    parser.read_buf(b"~0\r\n");
    assert_eq!(parser.try_parse(), Ok(Some(RespValue::SetVal(Some(vec![])))));

    parser = Parser::new(100, 1000);
    parser.read_buf(b"~-1\r\n");
    assert_eq!(parser.try_parse(), Ok(Some(RespValue::SetVal(None))));
}

#[test]
fn test_push_chunks() {
    let mut parser = Parser::new(100, 1000);

    parser.read_buf(b">2\r\n");
    assert!(matches!(parser.try_parse(), Err(ParseError::UnexpectedEof)));
    parser.read_buf(b"+message\r\n");
    assert!(matches!(parser.try_parse(), Err(ParseError::UnexpectedEof)));
    parser.read_buf(b":42\r\n");
    assert_eq!(
        parser.try_parse(),
        Ok(Some(RespValue::Push(Some(vec![
            RespValue::SimpleString(b"message".to_vec()),
            RespValue::Integer(42)
        ]))))
    );

    parser = Parser::new(100, 1000);
    parser.read_buf(b">0\r\n");
    assert_eq!(parser.try_parse(), Ok(Some(RespValue::Push(Some(vec![])))));

    parser = Parser::new(100, 1000);
    parser.read_buf(b">-1\r\n");
    assert_eq!(parser.try_parse(), Ok(Some(RespValue::Push(None))));
}

#[test]
fn test_integer_chunks() {
    let mut parser = Parser::new(100, 1000);

    parser.read_buf(b":123");
    match parser.try_parse() {
        Err(ParseError::UnexpectedEof) => (),
        other => panic!("Expected None, got {:?}", other),
    }

    parser.read_buf(b"45");
    match parser.try_parse() {
        Err(ParseError::UnexpectedEof) => (),
        other => panic!("Expected None, got {:?}", other),
    }

    parser.read_buf(b"\r\n");
    match parser.try_parse() {
        Ok(Some(RespValue::Integer(num))) => {
            assert_eq!(num, 12345);
        }
        other => panic!("Expected Integer, got {:?}", other),
    }
}

#[test]
fn test_batch_processing() {
    let mut parser = Parser::new(10, 1024);
    let input = b"*3\r\n$6\r\nCONFIG\r\n$3\r\nGET\r\n$4\r\nsave\r\n*3\r\n$6\r\nCONFIG\r\n$3\r\nGET\r\n$10\r\nappendonly\r\n";

    parser.read_buf(input);
    match parser.try_parse() {
        Ok(Some(RespValue::Array(Some(array)))) => {
            assert_eq!(array.len(), 3);
            assert_eq!(array[0], RespValue::BulkString(Some(b"CONFIG".to_vec())));
            assert_eq!(array[1], RespValue::BulkString(Some(b"GET".to_vec())));
            assert_eq!(array[2], RespValue::BulkString(Some(b"save".to_vec())));
        }
        other => panic!("Expected Array, got {:?}", other),
    }

    match parser.try_parse() {
        Ok(Some(RespValue::Array(Some(array)))) => {
            assert_eq!(array.len(), 3);
            assert_eq!(array[0], RespValue::BulkString(Some(b"CONFIG".to_vec())));
            assert_eq!(array[1], RespValue::BulkString(Some(b"GET".to_vec())));
            assert_eq!(array[2], RespValue::BulkString(Some(b"appendonly".to_vec())));
        }
        other => panic!("Expected Array, got {:?}", other),
    }

    assert_eq!(parser.try_parse(), Err(ParseError::UnexpectedEof));
}
