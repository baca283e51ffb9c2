use xmlparse::Attributes;

fn s(x: &str) -> String {
    x.to_string()
}

#[test]
fn insert_get_and_order() {
    let mut a = Attributes::new();
    assert_eq!(a.len(), 0);
    assert_eq!(a.get("x"), None);
    a.insert(s("m"), s("1"));
    a.insert(s("ab"), s("2"));
    a.insert(s("a"), s("3"));
    a.insert(s("z"), s("4"));
    assert_eq!(a.len(), 4);
    let keys: Vec<String> = (0..a.len()).map(|i| a.entry(i).0.clone()).collect();
    assert_eq!(keys, vec![s("a"), s("ab"), s("m"), s("z")]);
    assert_eq!(a.entry(1), (&s("ab"), &s("2")));
}

#[test]
fn law_get_after_insert_values() {
    let mut a = Attributes::new();
    a.insert(s("k"), s("old"));
    a.insert(s("other"), s("o"));
    a.insert(s("k"), s("new"));
    assert_eq!(a.get("k"), Some(&s("new")));
    assert_eq!(a.get("other"), Some(&s("o")));
    assert_eq!(a.get("missing"), None);
    assert_eq!(a.len(), 2);
}

#[test]
fn clone_keeps_entries() {
    let mut a = Attributes::new();
    a.insert(s("b"), s("1"));
    a.insert(s("a"), s("2"));
    let c = a.clone();
    assert_eq!(c, a);
    assert_eq!(c.entry(0), (&s("a"), &s("2")));
}
