use json_stream::parse::{ErrorCode, Json, JsonAccess, Number, Parser, SyntaxError};

fn read_all_chars(p: &mut Parser, s: json_stream::parse::ParseString) -> Vec<char> {
    let chars = s.read_chars();
    let mut out = vec![];
    while let Some(c) = chars.next(p) {
        out.push(c.unwrap());
    }
    out
}

#[test]
fn array_of_strings_read_owned() {
    let mut p = Parser::new(r#"["a","b","c"]"#.as_bytes());
    let arr = p.next().as_array().unwrap();
    let mut seen = vec![];
    while let Some(item) = arr.next(&mut p) {
        let s = item.as_string().unwrap();
        seen.push(s.read_owned(&mut p).unwrap());
    }
    assert_eq!(seen, vec!["a", "b", "c"]);
    assert!(arr.next(&mut p).is_none());
}

#[test]
fn top_level_sequence_of_scalars() {
    let mut p = Parser::new("null true false 0 1 -2 6.28".as_bytes());
    assert!(p.next().is_null());
    assert_eq!(p.next().as_bool(), Some(true));
    assert_eq!(p.next().as_bool(), Some(false));
    let zero = p.next().as_number().unwrap();
    assert_eq!(zero.as_u64(), Some(0));
    let one = p.next().as_number().unwrap();
    assert_eq!(one.as_u64(), Some(1));
    let minus_two = p.next().as_number().unwrap();
    assert_eq!(minus_two.as_u64(), None);
    assert_eq!(minus_two.as_i64(), Some(-2));
    let f = p.next().as_number().unwrap();
    assert_eq!(f.float_text().unwrap(), "6.28");
    assert!(p.next().is_none());
    assert!(p.next().is_none());
}

#[test]
fn object_value_deep_skip() {
    let mut p = Parser::new(r#"{"a":{"x":2}, "b":3}"#.as_bytes());
    let obj = p.next().as_object().unwrap();
    let kv = obj.next(&mut p).unwrap().unwrap();
    assert_eq!(kv.key(&mut p).read_owned(&mut p).unwrap(), "a");
    drop(kv);
    let kv = obj.next(&mut p).unwrap().unwrap();
    assert_eq!(kv.value(&mut p).as_number(), Some(Number::from(3)));
    assert!(obj.next(&mut p).is_none());
}

#[test]
fn array_deep_skip() {
    let mut p = Parser::new("[1, [2,3], 4]".as_bytes());
    let arr = p.next().as_array().unwrap();
    assert_eq!(arr.next(&mut p).as_number(), Some(Number::from(1)));
    let sub = arr.next(&mut p).as_array().unwrap();
    assert_eq!(sub.next(&mut p).as_number(), Some(Number::from(2)));
    drop(sub);
    assert_eq!(arr.next(&mut p).as_number(), Some(Number::from(4)));
    assert!(arr.next(&mut p).is_none());
}

#[test]
fn missing_comma_recovers() {
    let mut p = Parser::new("[1 2]".as_bytes());
    let arr = p.next().as_array().unwrap();
    assert_eq!(arr.next(&mut p).as_number(), Some(Number::from(1)));
    assert_eq!(
        arr.next(&mut p).unwrap().unwrap_err().syntax(),
        Some(SyntaxError::MissingComma)
    );
    assert_eq!(arr.next(&mut p).as_number(), Some(Number::from(2)));
    assert!(arr.next(&mut p).is_none());
}

#[test]
fn repeated_commas_recover() {
    let mut p = Parser::new("[1 , ,, 2]".as_bytes());
    let arr = p.next().as_array().unwrap();
    assert_eq!(arr.next(&mut p).as_number(), Some(Number::from(1)));
    for _ in 0..2 {
        assert_eq!(
            arr.next(&mut p).unwrap().unwrap_err().syntax(),
            Some(SyntaxError::TrailingComma)
        );
    }
    assert_eq!(arr.next(&mut p).as_number(), Some(Number::from(2)));
    assert!(arr.next(&mut p).is_none());
}

#[test]
fn identifier_run_is_skipped() {
    for input in ["trxu false", "potato false"] {
        let mut p = Parser::new(input.as_bytes());
        assert_eq!(
            p.next().unwrap().unwrap_err().syntax(),
            Some(SyntaxError::InvalidIdentifier)
        );
        assert_eq!(p.next().as_bool(), Some(false));
        assert!(p.next().is_none());
    }
}

#[test]
fn escaped_quote_in_owned_string() {
    let mut p = Parser::new(r#""a\"bc""#.as_bytes());
    let s = p.next().as_string().unwrap();
    assert_eq!(s.read_owned(&mut p).unwrap(), "a\"bc");
}

#[test]
fn braced_unicode_escape_as_chars() {
    let mut p = Parser::new(r#""\u{1234}""#.as_bytes());
    let s = p.next().as_string().unwrap();
    let chars = read_all_chars(&mut p, s);
    assert_eq!(chars.len(), 1);
    assert_eq!(chars[0] as u32, 0x1234);
}

#[test]
fn every_read_consumes_input() {
    let mut p = Parser::new("  [1] {\"k\": [true]} \"s\" 7  ".as_bytes());
    let mut count = 0;
    while let Some(r) = p.next() {
        assert!(r.is_ok());
        count += 1;
        assert!(count <= 4);
    }
    assert_eq!(count, 4);
}

#[test]
fn deeply_nested_value_is_skipped() {
    let mut p = Parser::new(r#"[[1,[2,{"a":[3,{"b":"x]}"}]}],4],5] 6"#.as_bytes());
    let outer = p.next().as_array().unwrap();
    let inner = outer.next(&mut p).as_array().unwrap();
    assert_eq!(inner.next(&mut p).as_number(), Some(Number::from(1)));
    let deeper = inner.next(&mut p).as_array().unwrap();
    assert_eq!(deeper.next(&mut p).as_number(), Some(Number::from(2)));
    drop(deeper);
    drop(inner);
    assert_eq!(outer.next(&mut p).as_number(), Some(Number::from(5)));
    assert!(outer.next(&mut p).is_none());
    assert_eq!(p.next().as_number(), Some(Number::from(6)));
}

#[test]
fn abandoned_top_level_value_is_skipped() {
    let mut p = Parser::new(r#"{"a":[1,2,{"b":null}],"c":"d"} true"#.as_bytes());
    let obj = p.next().as_object().unwrap();
    let kv = obj.next(&mut p).unwrap().unwrap();
    let arr = kv.value(&mut p).as_array().unwrap();
    assert_eq!(arr.next(&mut p).as_number(), Some(Number::from(1)));
    assert_eq!(p.next().as_bool(), Some(true));
    assert!(p.next().is_none());
}

#[test]
fn stale_handles_read_nothing() {
    let mut p = Parser::new("[[1,2],[3]]".as_bytes());
    let outer = p.next().as_array().unwrap();
    let first = outer.next(&mut p).as_array().unwrap();
    let second = outer.next(&mut p).as_array().unwrap();
    assert!(first.next(&mut p).is_none());
    assert_eq!(second.next(&mut p).as_number(), Some(Number::from(3)));
    assert!(second.next(&mut p).is_none());
    assert!(outer.next(&mut p).is_none());
}

#[test]
fn stale_string_reports_finished() {
    let mut p = Parser::new(r#"["x","y"]"#.as_bytes());
    let arr = p.next().as_array().unwrap();
    let x = arr.next(&mut p).as_string().unwrap();
    let y = arr.next(&mut p).as_string().unwrap();
    let err = x.read_owned(&mut p).unwrap_err();
    assert_eq!(err.syntax(), None);
    assert_eq!(err.code(), ErrorCode::Finished);
    assert_eq!(y.read_owned(&mut p).unwrap(), "y");
}

#[test]
fn key_twice_gives_inert_handle() {
    let mut p = Parser::new(r#"{"key":1}"#.as_bytes());
    let obj = p.next().as_object().unwrap();
    let kv = obj.next(&mut p).unwrap().unwrap();
    let first = kv.key(&mut p);
    let second = kv.key(&mut p);
    assert_eq!(second.read_owned(&mut p).unwrap_err().syntax(), None);
    assert_eq!(first.read_owned(&mut p).unwrap(), "key");
    assert_eq!(kv.value(&mut p).as_number(), Some(Number::from(1)));
}

#[test]
fn value_without_reading_key() {
    let mut p = Parser::new(r#"{"lo\"ng": "v", "k2" : [ ] }"#.as_bytes());
    let obj = p.next().as_object().unwrap();
    let kv = obj.next(&mut p).unwrap().unwrap();
    let v = kv.value(&mut p).as_string().unwrap();
    assert_eq!(v.read_owned(&mut p).unwrap(), "v");
    let kv = obj.next(&mut p).unwrap().unwrap();
    let a = kv.value(&mut p).as_array().unwrap();
    assert!(a.next(&mut p).is_none());
    assert!(obj.next(&mut p).is_none());
}

#[test]
fn error_invalid_number() {
    let mut p = Parser::new("1.2.3 4".as_bytes());
    assert_eq!(
        p.next().unwrap().unwrap_err().syntax(),
        Some(SyntaxError::InvalidNumber)
    );
    assert_eq!(p.next().as_number(), Some(Number::from(4)));
}

#[test]
fn number_kinds() {
    let mut p = Parser::new("18446744073709551615 -9223372036854775808 18446744073709551616 -0 1e5 2E-3 -1.5".as_bytes());
    assert_eq!(p.next().as_number().unwrap().as_u64(), Some(u64::MAX));
    assert_eq!(p.next().as_number().unwrap().as_i64(), Some(i64::MIN));
    assert_eq!(
        p.next().as_number().unwrap().float_text().unwrap(),
        "18446744073709551616"
    );
    assert_eq!(p.next().as_number(), Some(Number::from(0u64)));
    assert_eq!(p.next().as_number().unwrap().float_text().unwrap(), "1e5");
    assert_eq!(p.next().as_number().unwrap().float_text().unwrap(), "2E-3");
    assert_eq!(p.next().as_number().unwrap().float_text().unwrap(), "-1.5");
    assert!(p.next().is_none());
}

#[test]
fn error_expected_colon() {
    let mut p = Parser::new(r#"{"a" 1}"#.as_bytes());
    let obj = p.next().as_object().unwrap();
    let kv = obj.next(&mut p).unwrap().unwrap();
    assert_eq!(
        kv.value(&mut p).unwrap_err().syntax(),
        Some(SyntaxError::ExpectedColon)
    );
    assert_eq!(
        obj.next(&mut p).unwrap().unwrap_err().syntax(),
        Some(SyntaxError::KeyMustBeAString)
    );
    assert!(obj.next(&mut p).is_none());
}

#[test]
fn error_eof_in_value() {
    let mut p = Parser::new(r#"{"a": "#.as_bytes());
    let obj = p.next().as_object().unwrap();
    let kv = obj.next(&mut p).unwrap().unwrap();
    assert_eq!(
        kv.value(&mut p).unwrap_err().syntax(),
        Some(SyntaxError::EofWhileParsingValue)
    );
    assert!(obj.next(&mut p).is_none());
}

#[test]
fn error_escapes() {
    let mut p = Parser::new(r#""a\qb\u{D800}c\u{110000}d\u{zz}\u{}\u12" 3"#.as_bytes());
    let s = p.next().as_string().unwrap().read_chars();
    let mut got = vec![];
    while let Some(c) = s.next(&mut p) {
        got.push(c.map_err(|e| e.syntax().unwrap()));
    }
    assert_eq!(
        got,
        vec![
            Ok('a'),
            Err(SyntaxError::InvalidEscape),
            Ok('b'),
            Err(SyntaxError::InvalidUnicodeCodePoint),
            Ok('c'),
            Err(SyntaxError::InvalidUnicodeCodePoint),
            Ok('d'),
            Err(SyntaxError::InvalidEscape),
            Ok('z'),
            Ok('z'),
            Ok('}'),
            Err(SyntaxError::InvalidEscape),
            Ok('}'),
            Err(SyntaxError::InvalidEscape),
            Ok('1'),
            Ok('2'),
        ]
    );
    assert_eq!(p.next().as_number(), Some(Number::from(3)));
}

#[test]
fn one_letter_escapes() {
    let mut p = Parser::new(r#""\n\t\r\b\f\/\\\"""#.as_bytes());
    let s = p.next().as_string().unwrap();
    assert_eq!(
        s.read_owned(&mut p).unwrap(),
        "\n\t\r\u{8}\u{c}/\\\""
    );
}

#[test]
fn error_eof_in_string() {
    let mut p = Parser::new(r#"["abc"#.as_bytes());
    let arr = p.next().as_array().unwrap();
    let s = arr.next(&mut p).as_string().unwrap();
    let err = s.read_owned(&mut p).unwrap_err();
    assert_eq!(err.syntax(), Some(SyntaxError::EofWhileParsingString));
    assert!(arr.next(&mut p).is_none());
    assert!(p.next().is_none());
}

#[test]
fn read_into_appends() {
    let mut p = Parser::new(r#""\u{e9}t\u{E9}""#.as_bytes());
    let s = p.next().as_string().unwrap();
    let mut buf = String::from(">");
    s.read_into(&mut p, &mut buf).unwrap();
    assert_eq!(buf, ">\u{e9}t\u{e9}");
}

#[test]
fn stray_byte_is_an_invalid_identifier() {
    let mut p = Parser::new("] null".as_bytes());
    assert_eq!(
        p.next().unwrap().unwrap_err().syntax(),
        Some(SyntaxError::InvalidIdentifier)
    );
    assert!(p.next().is_null());
}

#[test]
fn error_code_of_syntax_error() {
    let e = json_stream::parse::Error::from(SyntaxError::TrailingComma);
    assert_eq!(e.syntax(), Some(SyntaxError::TrailingComma));
    assert_eq!(e.code(), ErrorCode::Syntax(SyntaxError::TrailingComma));
    let _ = Json::Null;
}

#[test]
fn leading_zeros_are_rejected() {
    let mut p = Parser::new("007 -01 00.5 0 0.5 -0.5 10".as_bytes());
    for _ in 0..3 {
        assert_eq!(
            p.next().unwrap().unwrap_err().syntax(),
            Some(SyntaxError::InvalidNumber)
        );
    }
    assert_eq!(p.next().as_number(), Some(Number::from(0)));
    assert_eq!(p.next().as_number().unwrap().float_text().unwrap(), "0.5");
    assert_eq!(p.next().as_number().unwrap().float_text().unwrap(), "-0.5");
    assert_eq!(p.next().as_number(), Some(Number::from(10)));
    assert!(p.next().is_none());
}
