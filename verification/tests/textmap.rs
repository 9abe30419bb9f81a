use trx_engine::text::{owned, push_str, string_from_chars, trim, trim_matches_char};
use trx_engine::textmap::TextMap;

#[test]
fn insert_get_remove() {
    let mut m: TextMap<u32> = TextMap::new();
    m.insert("b".to_string(), 1);
    m.insert("a".to_string(), 2);
    m.insert("b".to_string(), 3);
    assert_eq!(m.len(), 2);
    assert_eq!(m.get("b"), Some(&3));
    assert_eq!(m.get("a"), Some(&2));
    assert_eq!(m.get("c"), None);
    assert_eq!(m.entry(0), (&"b".to_string(), &3));
    assert!(m.contains_key("a"));
    assert_eq!(m.remove("b"), Some(3));
    assert_eq!(m.remove("b"), None);
    assert_eq!(m.len(), 1);
    assert_eq!(m.position("a"), Some(0));
}

#[test]
fn text_helpers() {
    assert_eq!(trim("  a b \t\n"), "a b");
    assert_eq!(trim("\u{3000}x\u{a0}"), "x");
    assert_eq!(trim_matches_char("\"\"q\"", '"'), "q");
    assert_eq!(string_from_chars(&['a', 'é', 'z']), "aéz");
    assert_eq!(owned("déjà"), "déjà");
    let mut s = String::from("a");
    push_str(&mut s, "bç");
    assert_eq!(s, "abç");
}
