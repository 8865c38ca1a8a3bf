use router::params::Params;

#[test]
fn params_start_empty() {
    let params = Params::new();
    assert!(params.is_empty());
    assert_eq!(params.len(), 0);
    assert_eq!(params.get("id"), None);
    assert!(!params.contains_key("id"));
}

#[test]
fn params_insert_and_get() {
    let mut params = Params::new();
    params.insert("id".to_string(), "42".to_string());
    params.insert("name".to_string(), "FooBar".to_string());
    assert_eq!(params.len(), 2);
    assert!(!params.is_empty());
    assert_eq!(params.get("id"), Some(&"42".to_string()));
    assert_eq!(params.get("name"), Some(&"FooBar".to_string()));
    assert_eq!(params.get("Name"), None);
    assert!(params.contains_key("name"));
}

#[test]
fn params_insert_replaces() {
    let mut params = Params::new();
    params.insert("id".to_string(), "1".to_string());
    params.insert("id".to_string(), "2".to_string());
    assert_eq!(params.len(), 1);
    assert_eq!(params.get("id"), Some(&"2".to_string()));
    assert_eq!(params.entries(), &vec![("id".to_string(), "2".to_string())]);
}

#[test]
fn params_equality_ignores_order() {
    let mut one = Params::new();
    one.insert("a".to_string(), "12".to_string());
    one.insert("b".to_string(), "345".to_string());
    let mut other = Params::new();
    other.insert("b".to_string(), "345".to_string());
    other.insert("a".to_string(), "12".to_string());
    assert_eq!(one, other);

    other.insert("a".to_string(), "13".to_string());
    assert_ne!(one, other);

    let mut longer = Params::new();
    longer.insert("a".to_string(), "12".to_string());
    longer.insert("b".to_string(), "345".to_string());
    longer.insert("c".to_string(), "".to_string());
    assert_ne!(one, longer);
    assert_ne!(longer, one);

    let mut renamed = Params::new();
    renamed.insert("a".to_string(), "12".to_string());
    renamed.insert("c".to_string(), "345".to_string());
    assert_ne!(one, renamed);
}
