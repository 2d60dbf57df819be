use poly_backend::biaser::{Biaser, JsonBiaser, Property, ValueKind};
use poly_backend::session::BiasEntry;

const EOT: u32 = 0;

fn person() -> Vec<Property> {
    vec![
        Property { name: "name".to_string(), kind: ValueKind::Str },
        Property { name: "age".to_string(), kind: ValueKind::Int },
    ]
}

fn vocab() -> Vec<String> {
    [
        "</s>", "{", "{\"name\":", "\"", "Bo", "b", "\",", "\"age\":", "4", "2", "}", "x", ",\"age\":", "0", "-", "\"\\", "",
    ]
    .iter()
    .map(|s| s.to_string())
    .collect()
}

fn ids(entries: &[BiasEntry]) -> Vec<u32> {
    assert!(entries.iter().all(|e| e.positive));
    entries.iter().map(|e| e.token).collect()
}

#[test]
fn json_biaser_starts_with_the_object() {
    let b = JsonBiaser::new(&person());
    assert_eq!(ids(&b.bias(&vocab(), EOT)), vec![1, 2]);
}

#[test]
fn json_biaser_produces_a_conforming_object() {
    let v = vocab();
    let mut b = JsonBiaser::new(&person());
    for t in [2usize, 3, 4, 5, 6, 7, 8, 9, 10] {
        assert!(b.bias(&v, EOT).iter().any(|e| e.token == t as u32), "token {t} admitted");
        assert!(b.advance(&v[t]));
    }
    assert_eq!(ids(&b.bias(&v, EOT)), vec![EOT]);
}

#[test]
fn json_biaser_rejects_what_cannot_follow() {
    let v = vocab();
    let mut b = JsonBiaser::new(&person());
    assert!(!b.advance(&"x".to_string()));
    assert!(b.advance(&"{\"name\":\"".to_string()));
    assert!(!b.advance(&"\\".to_string()));
    assert!(b.advance(&"Bob\"".to_string()));
    assert!(!b.advance(&"}".to_string()));
    assert!(b.advance(&",\"age\":".to_string()));
    assert_eq!(ids(&b.bias(&v, EOT)), vec![8, 9, 13, 14]);
    assert!(b.advance(&"0".to_string()));
    assert!(!b.advance(&"1".to_string()));
    assert_eq!(ids(&b.bias(&v, EOT)), vec![10]);
    assert!(b.advance(&"}".to_string()));
    assert_eq!(ids(&b.bias(&v, EOT)), vec![EOT]);
}

#[test]
fn json_biaser_number_ends_at_next_literal() {
    let props = vec![
        Property { name: "a".to_string(), kind: ValueKind::Int },
        Property { name: "b".to_string(), kind: ValueKind::Bool },
    ];
    let mut b = JsonBiaser::new(&props);
    assert!(b.advance(&"{\"a\":-12,\"b\":fal".to_string()));
    assert!(!b.advance(&"x".to_string()));
    assert!(b.advance(&"se}".to_string()));
    assert_eq!(ids(&b.bias(&vec!["}".to_string()], 7)), vec![7]);
}

#[test]
fn json_biaser_empty_object() {
    let mut b = JsonBiaser::new(&vec![]);
    assert!(!b.advance(&"{\"".to_string()));
    assert!(b.advance(&"{}".to_string()));
    assert_eq!(ids(&b.bias(&vec!["a".to_string()], 3)), vec![3]);
}

#[test]
fn null_biaser_admits_everything() {
    let mut b = Biaser::Null;
    assert!(b.bias(&vocab(), EOT).is_empty());
    b.advance(&"anything".to_string());
    assert!(b.bias(&vocab(), EOT).is_empty());
}

#[test]
fn schema_biaser_through_the_enum() {
    let mut b = Biaser::JsonSchema(JsonBiaser::new(&person()));
    assert_eq!(ids(&b.bias(&vocab(), EOT)), vec![1, 2]);
    b.advance(&"{".to_string());
    assert_eq!(ids(&b.bias(&vec!["\"name\":".to_string(), "{".to_string()], 9)), vec![0]);
}
