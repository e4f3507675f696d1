use person_cli::codec::{decode, encode, fmt_usize};
use person_cli::person::Person;

fn person(id: usize, name: &str, category: &str, age: usize, created_at: &str) -> Person {
    Person {
        id,
        name: name.to_string(),
        category: category.to_string(),
        age,
        created_at: created_at.to_string(),
    }
}

#[test]
fn encode_empty_collection() {
    let people: Vec<Person> = Vec::new();
    assert_eq!(encode(&people), "[]");
}

#[test]
fn encode_one_record_exactly() {
    let people = vec![person(1, "ab", "cats", 3, "2020-01-02T03:04:05+00:00")];
    assert_eq!(
        encode(&people),
        "[{\"id\":1,\"name\":\"ab\",\"category\":\"cats\",\"age\":3,\"created_at\":\"2020-01-02T03:04:05+00:00\"}]"
    );
}

#[test]
fn fmt_usize_writes_decimal() {
    assert_eq!(fmt_usize(0), "0");
    assert_eq!(fmt_usize(7), "7");
    assert_eq!(fmt_usize(9999998), "9999998");
    assert_eq!(fmt_usize(usize::MAX), usize::MAX.to_string());
}

#[test]
fn decode_empty_collection() {
    let r = decode("[]").expect("empty array decodes");
    assert_eq!(r.len(), 0);
}

#[test]
fn round_trip_preserves_every_field() {
    let people = vec![
        person(0, "a name 10", "cats", 1, "1996-12-19T16:39:57-08:00"),
        person(usize::MAX, "", "dogs", 14, "2020-01-02T03:04:05.123456789+00:00"),
        person(42, "xyzXYZ097", "other things", 99, ""),
    ];
    let text = encode(&people);
    let back = decode(text.as_str()).expect("an encoded collection decodes");
    assert_eq!(back.len(), people.len());
    for (a, b) in people.iter().zip(back.iter()) {
        assert!(a == b);
    }
}

#[test]
fn decode_rejects_malformed_text() {
    let bad = [
        "",
        "garbage",
        "[",
        "]",
        "[]x",
        "[{}]",
        "[{\"id\":1}]",
        "[{\"id\":01,\"name\":\"a\",\"category\":\"cats\",\"age\":3,\"created_at\":\"t\"}]",
        "[{\"id\":-1,\"name\":\"a\",\"category\":\"cats\",\"age\":3,\"created_at\":\"t\"}]",
        "[{\"id\":1,\"name\":\"a\",\"age\":3,\"category\":\"cats\",\"created_at\":\"t\"}]",
        "[{\"id\":1,\"name\":\"a\",\"category\":\"cats\",\"age\":3,\"created_at\":\"t\"},]",
        "[{\"id\":1,\"name\":\"a\",\"category\":\"cats\",\"age\":3,\"created_at\":\"t\"}] ",
        " [{\"id\":1,\"name\":\"a\",\"category\":\"cats\",\"age\":3,\"created_at\":\"t\"}]",
        "[{\"id\":1,\"name\":\"a\\\"b\",\"category\":\"cats\",\"age\":3,\"created_at\":\"t\"}]",
        "[{\"id\":99999999999999999999999999,\"name\":\"a\",\"category\":\"cats\",\"age\":3,\"created_at\":\"t\"}]",
    ];
    for text in bad.iter() {
        assert!(decode(text).is_none(), "should reject: {}", text);
    }
}

#[test]
fn encoded_text_is_json_for_other_readers() {
    let people = vec![
        person(7, "abcdefghij", "dogs", 12, "2021-05-06T07:08:09+00:00"),
        person(8, "k", "cats", 2, "2022-01-01T00:00:00+00:00"),
    ];
    let text = encode(&people);
    let v: serde_json::Value = serde_json::from_str(&text).expect("valid JSON");
    let arr = v.as_array().expect("an array");
    assert_eq!(arr.len(), 2);
    assert_eq!(arr[0].get("id").and_then(|x| x.as_u64()), Some(7));
    assert_eq!(arr[0].get("name").and_then(|x| x.as_str()), Some("abcdefghij"));
    assert_eq!(arr[0].get("category").and_then(|x| x.as_str()), Some("dogs"));
    assert_eq!(arr[0].get("age").and_then(|x| x.as_u64()), Some(12));
    assert_eq!(
        arr[1].get("created_at").and_then(|x| x.as_str()),
        Some("2022-01-01T00:00:00+00:00")
    );
}
