use asterisk::string_pool::Pool;

#[test]
fn pool_interns_and_resolves() {
    let mut pool = Pool::new();
    assert_eq!(pool.len(), 0);
    let a = pool.add("alpha".to_string());
    let b = pool.add("beta".to_string());
    assert_eq!(pool.len(), 2);
    assert_eq!(pool.get(a), "alpha");
    assert_eq!(pool.get(b), "beta");
}

#[test]
fn pool_returns_existing_id_for_equal_string() {
    let mut pool = Pool::new();
    let a = pool.add("alpha".to_string());
    let b = pool.add("beta".to_string());
    let a2 = pool.add("alpha".to_string());
    assert_eq!(a, a2);
    assert_ne!(a, b);
    assert_eq!(pool.len(), 2);
}

#[test]
fn pool_reverse_lookup_finds_interned_names() {
    let mut pool = Pool::new();
    let a = pool.add("alpha".to_string());
    assert_eq!(pool.reverse_lookup("alpha"), Some(a));
    assert_eq!(pool.reverse_lookup("missing"), None);
}
