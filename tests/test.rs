use json_stream::parse::{Json, JsonAccess, Number, Parser, SyntaxError};

#[test]
fn test_example() {
    let mut p = Parser::new(r#"["a","b","c"]"#.as_bytes());

    let arr = p
        .next()
        .unwrap()
        .as_array()
        .expect("expected root object to be an array");

    let mut seen: Vec<String> = vec![];

    while let Some(item) = arr.next(&mut p) {
        if let Ok(Json::String(s)) = item {
            seen.push(s.read_owned(&mut p).unwrap());
        }
    }

    assert_eq!(seen, &["a", "b", "c"]);
}

#[test]
fn test_chars() {
    let mut p = Parser::new(r#""abc""#.as_bytes());

    let s = p
        .next()
        .unwrap()
        .as_string()
        .expect("expected root object to be a string");

    let reader = s.read_chars();
    let mut chars: Vec<char> = vec![];
    while let Some(c) = reader.next(&mut p) {
        chars.push(c.unwrap());
    }

    assert_eq!(chars, &['a', 'b', 'c']);
}

#[test]
fn test_basics() {
    let mut p = Parser::new("null true false 0 1 -2 6.28".as_bytes());

    assert!(p.next().unwrap().is_null());
    assert_eq!(p.next().unwrap().as_bool(), Some(true));
    assert_eq!(p.next().unwrap().as_bool(), Some(false));
    assert_eq!(p.next().unwrap().as_number(), Some(Number::from(0)));
    assert_eq!(p.next().unwrap().as_number(), Some(Number::from(1)));
    assert_eq!(p.next().unwrap().as_number(), Some(Number::from(-2)));
    let f = p.next().unwrap().as_number().unwrap();
    assert_eq!(f.float_text().unwrap().parse::<f64>().unwrap(), 6.28);

    assert!(p.next().is_none());
}

#[test]
fn test_empty_object_no_keyval() {
    let mut p = Parser::new("{ }".as_bytes());

    let obj = match p.next() {
        Some(Ok(Json::Object(obj))) => obj,
        _ => panic!("expected root object to be an object"),
    };

    assert!(obj.next(&mut p).is_none());
}

#[test]
fn test_object_and_keyval() {
    let mut p = Parser::new(r#"{"a" : 2, "b":[3, 4], "c": false}"#.as_bytes());

    let obj = match p.next() {
        Some(Ok(Json::Object(obj))) => obj,
        _ => panic!("expected root object to be an object"),
    };

    let kv = obj.next(&mut p).unwrap().unwrap();
    assert_eq!(kv.key(&mut p).read_owned(&mut p).unwrap(), "a");
    assert_eq!(kv.value(&mut p).as_number(), Some(Number::from(2)));

    let kv = obj.next(&mut p).unwrap().unwrap();
    assert!(kv.value(&mut p).is_array());

    let kv = obj.next(&mut p).unwrap().unwrap();
    assert_eq!(kv.key(&mut p).read_owned(&mut p).unwrap(), "c");
    drop(kv);

    assert!(obj.next(&mut p).is_none());
}

#[test]
fn test_object_skipping() {
    let mut p = Parser::new(r#"{"a":{"x":2}, "b":3}"#.as_bytes());

    let obj = p
        .next()
        .unwrap()
        .as_object()
        .expect("expected root object to be an object");

    let kv = obj.next(&mut p).unwrap().unwrap();
    assert_eq!(kv.key(&mut p).read_owned(&mut p).unwrap(), "a");
    drop(kv);

    let kv = obj.next(&mut p).unwrap().unwrap();
    assert_eq!(kv.value(&mut p).as_number(), Some(Number::from(3)));
}

#[test]
fn test_missing_comma_error() {
    let mut p = Parser::new("[1 2]".as_bytes());

    let arr = p
        .next()
        .unwrap()
        .as_array()
        .expect("expected root object to be an array");

    assert_eq!(arr.next(&mut p).unwrap().as_number(), Some(Number::from(1)));
    assert_eq!(
        arr.next(&mut p).unwrap().unwrap_err().syntax(),
        Some(SyntaxError::MissingComma)
    );
    assert_eq!(arr.next(&mut p).unwrap().as_number(), Some(Number::from(2)));
}

#[test]
fn test_trailing_comma_error() {
    let mut p = Parser::new("[1 , ,, 2]".as_bytes());

    let arr = p
        .next()
        .unwrap()
        .as_array()
        .expect("expected root object to be an array");

    assert_eq!(arr.next(&mut p).unwrap().as_number(), Some(Number::from(1)));
    assert_eq!(
        arr.next(&mut p).unwrap().unwrap_err().syntax(),
        Some(SyntaxError::TrailingComma)
    );
    assert_eq!(
        arr.next(&mut p).unwrap().unwrap_err().syntax(),
        Some(SyntaxError::TrailingComma)
    );
    assert_eq!(arr.next(&mut p).unwrap().as_number(), Some(Number::from(2)));
}

#[test]
fn test_eof() {
    let mut p = Parser::new("nul".as_bytes());
    assert_eq!(
        p.next().unwrap().unwrap_err().syntax(),
        Some(SyntaxError::EofWhileParsingValue)
    );
}

#[test]
fn test_invalid_ident() {
    let mut p = Parser::new("trxu false".as_bytes());
    assert_eq!(
        p.next().unwrap().unwrap_err().syntax(),
        Some(SyntaxError::InvalidIdentifier)
    );
    assert_eq!(p.next().unwrap().as_bool(), Some(false));
}

#[test]
fn test_unknown_ident() {
    let mut p = Parser::new("potato false".as_bytes());
    assert_eq!(
        p.next().unwrap().unwrap_err().syntax(),
        Some(SyntaxError::InvalidIdentifier)
    );
    assert_eq!(p.next().unwrap().as_bool(), Some(false));
}
