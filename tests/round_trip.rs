use json_stream::emit::{EmitArray, EmitObject, Emitter};
use json_stream::parse::{Json, Parser};

enum Into<'a> {
    Top,
    Item(&'a EmitArray),
    Member(&'a EmitObject, String),
}

fn copy_value(p: &mut Parser, j: Json, out: &mut Emitter, into: Into) {
    match j {
        Json::Number(n) => match into {
            Into::Top => out.emit(&n).unwrap(),
            Into::Item(a) => a.emit(out, &n).unwrap(),
            Into::Member(o, k) => o.emit(out, &k, &n).unwrap(),
        },
        Json::String(s) => {
            let text = s.read_owned(p).unwrap();
            match into {
                Into::Top => out.emit(&text).unwrap(),
                Into::Item(a) => a.emit(out, &text).unwrap(),
                Into::Member(o, k) => o.emit(out, &k, &text).unwrap(),
            }
        }
        Json::Array(arr) => {
            let dst = match into {
                Into::Top => out.array().unwrap(),
                Into::Item(a) => a.array(out).unwrap(),
                Into::Member(o, k) => o.emit_array(out, &k).unwrap(),
            };
            while let Some(item) = arr.next(p) {
                copy_value(p, item.unwrap(), out, Into::Item(&dst));
            }
            dst.end(out);
        }
        Json::Object(obj) => {
            let dst = match into {
                Into::Top => out.object().unwrap(),
                Into::Item(a) => a.object(out).unwrap(),
                Into::Member(o, k) => o.emit_object(out, &k).unwrap(),
            };
            while let Some(kv) = obj.next(p) {
                let kv = kv.unwrap();
                let key = kv.key(p).read_owned(p).unwrap();
                let v = kv.value(p).unwrap();
                copy_value(p, v, out, Into::Member(&dst, key));
            }
            dst.end(out);
        }
        _ => panic!("not part of the round-tripped subset"),
    }
}

fn round_trip(input: &str) -> String {
    let mut p = Parser::new(input.as_bytes());
    let mut e = Emitter::new();
    let j = p.next().unwrap().unwrap();
    copy_value(&mut p, j, &mut e, Into::Top);
    assert!(p.next().is_none());
    e.finish();
    e.take_output()
}

#[test]
fn parse_then_emit_reproduces_text() {
    let input = r#"[1,-2,[3.5,"ab"],[],"x y",18446744073709551615,-9223372036854775808,2E-3]"#;
    assert_eq!(round_trip(input), input);
}

#[test]
fn parse_then_emit_objects() {
    let input = r#"{"a":{"x":[1,{"y":"z"}],"w":{}},"b":-0.25,"c":[[],{}],"d":"e"}"#;
    assert_eq!(round_trip(input), input);
}

#[test]
fn parse_then_emit_drops_whitespace() {
    let input = "[ 1 , { \"k\" : \"v\" } ,\n 2 ]";
    assert_eq!(round_trip(input), r#"[1,{"k":"v"},2]"#);
}

#[test]
fn parse_then_emit_scalars() {
    for input in ["0", "-7", "1e5", "\"plain text\"", "[]", "{}"] {
        assert_eq!(round_trip(input), input);
    }
}
