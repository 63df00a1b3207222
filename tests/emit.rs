use json_stream::emit::{Emitter, JsonEmit};
use std::collections::{BTreeSet, BinaryHeap, HashMap, LinkedList, VecDeque};

fn finished(mut e: Emitter) -> String {
    e.finish();
    e.take_output()
}

#[test]
fn emit_example() {
    let mut e = Emitter::new();

    let arr = e.array().unwrap();
    arr.emit(&mut e, "a").unwrap();
    {
        let obj = arr.object(&mut e).unwrap();
        obj.emit(&mut e, "k", "v").unwrap();
    }
    arr.emit(&mut e, &3).unwrap();

    assert_eq!(finished(e), r#"["a",{"k":"v"},3]"#);
}

#[test]
fn commas_in_object() {
    let mut e = Emitter::new();

    let o = e.object().unwrap();
    o.emit(&mut e, "a", &1).unwrap();
    o.emit(&mut e, "b", &2).unwrap();

    assert_eq!(finished(e), r#"{"a":1,"b":2}"#);
}

#[test]
fn commas_near_arrays_in_object() {
    let mut e = Emitter::new();

    let o = e.object().unwrap();
    o.emit_array(&mut e, "a").unwrap();
    let b = o.emit_array(&mut e, "b").unwrap();
    b.emit(&mut e, &3).unwrap();
    b.emit(&mut e, &4).unwrap();

    assert_eq!(finished(e), r#"{"a":[],"b":[3,4]}"#);
}

fn emit_thing_test<T: JsonEmit + ?Sized>(val: &T, expect: &str) {
    let mut e = Emitter::new();

    e.emit(val).unwrap();

    assert_eq!(finished(e), expect);
}

#[test]
fn basic_sequences() {
    let v: Vec<usize> = vec![1, 2, 3];
    emit_thing_test::<Vec<usize>>(&v, r#"[1,2,3]"#);

    let slice = &[1, 2, 3][..];
    emit_thing_test::<[usize]>(slice, r#"[1,2,3]"#);

    let arr = [1, 2, 3];
    emit_thing_test::<[usize]>(&arr[..], r#"[1,2,3]"#);

    let deque = VecDeque::from([1, 2, 3]);
    let items: Vec<usize> = deque.into_iter().collect();
    emit_thing_test::<Vec<usize>>(&items, r#"[1,2,3]"#);

    let list = LinkedList::from([1, 2, 3]);
    let items: Vec<usize> = list.into_iter().collect();
    emit_thing_test::<Vec<usize>>(&items, r#"[1,2,3]"#);

    let tset = BTreeSet::from([1, 2, 3]);
    let items: Vec<usize> = tset.into_iter().collect();
    emit_thing_test::<Vec<usize>>(&items, r#"[1,2,3]"#);

    let heap = BinaryHeap::from([1, 2, 3]);
    let items: Vec<usize> = heap.into_sorted_vec().into_iter().rev().collect();
    emit_thing_test::<Vec<usize>>(&items, r#"[3,2,1]"#);
}

#[test]
fn emitting_object() {
    let mut e = Emitter::new();

    let m = {
        let mut m = HashMap::new();
        m.insert("a", 1);
        m.insert("b", 2);
        m
    };
    let o = e.object().unwrap();
    for (k, v) in &m {
        o.emit(&mut e, k, v).unwrap();
    }

    let result_str = finished(e);
    assert!(result_str == r#"{"a":1,"b":2}"# || result_str == r#"{"b":2,"a":1}"#);
}

#[test]
fn emitting_string() {
    let mut e = Emitter::new();
    let s = String::from("abcd");
    e.emit(&s).unwrap();

    assert_eq!(finished(e), r#""abcd""#);
}

#[test]
fn emit_chars() {
    let mut e = Emitter::new();
    let s = e.string().unwrap();
    s.char(&mut e, 'a').unwrap();
    s.str(&mut e, "bcd").unwrap();

    assert_eq!(finished(e), r#""abcd""#);
}

#[test]
fn emitter_newline_between_items() {
    let mut e = Emitter::new();

    e.emit(&3).unwrap();
    e.emit("abc").unwrap();
    let a = e.array().unwrap();
    a.emit(&mut e, &1).unwrap();
    let o = e.object().unwrap();
    o.emit(&mut e, "x", &5).unwrap();

    assert_eq!(
        finished(e),
        r#"3
"abc"
[1]
{"x":5}"#
    );
}

#[test]
fn commas_in_array() {
    let mut e = Emitter::new();
    let arr = e.array().unwrap();
    arr.string(&mut e).unwrap().str(&mut e, "abc").unwrap();
    arr.string(&mut e).unwrap().str(&mut e, "def").unwrap();

    assert_eq!(finished(e), r#"["abc","def"]"#);
}

#[test]
fn emitter_newline_after_string() {
    let mut e = Emitter::new();

    e.string().unwrap().str(&mut e, "abc").unwrap();
    e.string().unwrap().str(&mut e, "def").unwrap();

    assert_eq!(
        finished(e),
        r#""abc"
"def""#
    );
}

#[test]
fn integer_texts() {
    let mut e = Emitter::new();
    e.emit(&u64::MAX).unwrap();
    e.emit(&i64::MIN).unwrap();
    e.emit(&-17i32).unwrap();
    e.emit(&0u8).unwrap();
    e.emit(&true).unwrap();
    e.emit(&false).unwrap();
    assert_eq!(
        finished(e),
        "18446744073709551615\n-9223372036854775808\n-17\n0\ntrue\nfalse"
    );
}

#[test]
fn nested_lists() {
    let v: Vec<Vec<i64>> = vec![vec![], vec![1], vec![-2, 3]];
    let mut e = Emitter::new();
    e.emit(&v).unwrap();
    assert_eq!(finished(e), "[[],[1],[-2,3]]");
}

#[test]
fn closed_scope_refuses_writes() {
    let mut e = Emitter::new();
    let outer = e.array().unwrap();
    let first = outer.array(&mut e).unwrap();
    first.emit(&mut e, &1).unwrap();
    let second = outer.object(&mut e).unwrap();
    assert_eq!(first.emit(&mut e, &2), Err(json_stream::emit::Error::Closed));
    second.emit(&mut e, "k", "v").unwrap();
    second.end(&mut e);
    outer.emit(&mut e, &3).unwrap();
    outer.end(&mut e);
    assert_eq!(finished(e), r#"[[1],{"k":"v"},3]"#);
}

#[test]
fn output_can_be_taken_as_it_goes() {
    let mut e = Emitter::new();
    let o = e.object().unwrap();
    o.emit(&mut e, "a", &1).unwrap();
    let part = e.take_output();
    assert_eq!(part, r#"{"a":1"#);
    let inner = o.emit_object(&mut e, "b").unwrap();
    inner.emit(&mut e, "c", &[true, false][..]).unwrap();
    assert_eq!(finished(e), r#","b":{"c":[true,false]}}"#);
}

#[test]
fn string_scope_end() {
    let mut e = Emitter::new();
    let s = e.string().unwrap();
    s.str(&mut e, "x").unwrap();
    s.end(&mut e);
    e.emit(&1).unwrap();
    assert_eq!(finished(e), "\"x\"\n1");
}
