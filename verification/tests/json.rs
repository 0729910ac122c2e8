use pipeline_router::http::json::{decode, encode, parsed, written};
use pipeline_router::http::message::{IntoBody, Method, Response};
use pipeline_router::pipeline::link::Failure;
use std::collections::BTreeMap;

#[test]
fn what_was_encoded_decodes_to_the_same_value() {
    let value: (i32, String, Vec<Option<bool>>) =
        (-7, "sp\"ace d\u{e9}".to_string(), vec![Some(true), None]);
    let reply = encode(&value).unwrap();
    assert_eq!(reply.status, 200);
    let back: (i32, String, Vec<Option<bool>>) = decode(&reply.body).unwrap();
    assert_eq!(back, value);

    let mut map = BTreeMap::new();
    map.insert("k".to_string(), vec![1u64, 2]);
    map.insert("empty".to_string(), vec![]);
    let back: BTreeMap<String, Vec<u64>> = decode(&encode(&map).unwrap().body).unwrap();
    assert_eq!(back, map);
}

#[test]
fn encode_writes_json_text() {
    let reply = encode(&vec![1, 2, 3]).unwrap();
    assert_eq!(reply.status, 200);
    assert_eq!(reply.body, b"[1,2,3]".to_vec());
    let reply = encode(&"q").unwrap();
    assert_eq!(reply.body, b"\"q\"".to_vec());
}

#[test]
fn decode_reads_json_text() {
    let n: i32 = decode(&b" 12 ".to_vec()).unwrap();
    assert_eq!(n, 12);
    let words: Vec<String> = decode(&b"[\"a\",\"b\"]".to_vec()).unwrap();
    assert_eq!(words, vec!["a".to_string(), "b".to_string()]);
}

#[test]
fn decode_of_malformed_bytes_is_a_decode_error() {
    let r: Result<i32, Failure> = decode(&b"adb".to_vec());
    let e = r.err().unwrap();
    assert!(matches!(e, Failure::Decode(_)));
    assert_eq!(e.description(), "expected value at line 1 column 1");
    let r: Result<Vec<i32>, Failure> = decode(&b"[1,".to_vec());
    assert_eq!(
        r.err().unwrap().description(),
        "EOF while parsing a value at line 1 column 3"
    );
    let r: Result<u8, Failure> = decode(&b"300".to_vec());
    assert!(matches!(r, Err(Failure::Decode(_))));
}

#[test]
fn encode_of_a_map_without_string_keys_is_a_decode_error() {
    let mut map = BTreeMap::new();
    map.insert(vec![1], 1);
    let e = encode(&map).err().unwrap();
    assert!(matches!(e, Failure::Decode(_)));
    assert_eq!(e.description(), "key must be a string");
}

#[test]
fn parsed_keeps_a_value_and_describes_an_error() {
    assert_eq!(parsed(serde_json::from_str::<i32>("5")).unwrap(), 5);
    let outside = serde_json::from_str::<i32>("five");
    let text = serde_json::from_str::<i32>("five").err().unwrap().to_string();
    let e = parsed(outside).err().unwrap();
    assert!(matches!(e, Failure::Decode(_)));
    assert_eq!(e.description(), text);
}

#[test]
fn written_makes_the_reply_of_the_text() {
    let reply = written(Ok("{\"a\":1}".to_string())).unwrap();
    assert_eq!(reply.status, 200);
    assert_eq!(reply.body, b"{\"a\":1}".to_vec());
    let mut map = BTreeMap::new();
    map.insert((0, 0), 0);
    let e = written(serde_json::to_string(&map)).err().unwrap();
    assert!(matches!(e, Failure::Decode(_)));
}

#[test]
fn bodies_are_the_bytes_of_the_value() {
    assert_eq!(vec![0u8, 255].into_body(), vec![0u8, 255]);
    assert_eq!("h\u{e9}".to_string().into_body(), vec![b'h', 0xc3, 0xa9]);
    assert_eq!("abc".into_body(), b"abc".to_vec());
    assert_eq!("".into_body(), Vec::<u8>::new());
}

#[test]
fn responses_hold_status_and_body() {
    let r = Response::new(201, vec![1, 2]);
    assert_eq!((r.status, r.body), (201, vec![1, 2]));
    let r = Response::text(404, "not found");
    assert_eq!((r.status, r.body), (404, b"not found".to_vec()));
}

#[test]
fn a_status_of_three_digits_is_sent_as_it_is() {
    for status in [100u16, 200, 404, 405, 500, 999] {
        assert_eq!(Response::new(status, vec![]).status_to_send(), status);
    }
    for status in [0u16, 1, 99, 1000, 1001, u16::MAX] {
        assert_eq!(Response::new(status, vec![]).status_to_send(), 500);
    }
}

#[test]
fn methods_compare_by_what_they_name() {
    let all = [
        Method::Get,
        Method::Post,
        Method::Put,
        Method::Delete,
        Method::Head,
        Method::Options,
        Method::Connect,
        Method::Patch,
        Method::Trace,
        Method::Extension("PURGE".to_string()),
        Method::Extension("LINK".to_string()),
    ];
    for (i, a) in all.iter().enumerate() {
        for (j, b) in all.iter().enumerate() {
            assert_eq!(a.same(b), i == j);
        }
        assert!(a.clone().same(a));
    }
}
