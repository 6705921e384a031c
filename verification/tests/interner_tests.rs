use quack_core::interner::Interner;
use quack_core::types::TypeInterner;
use quack_core::GraphError;

#[test]
fn interning_assigns_dense_ids() {
    let mut t = Interner::new();
    assert_eq!(t.intern("A"), 0);
    assert_eq!(t.intern("B"), 1);
    assert_eq!(t.intern("A"), 0);
    assert_eq!(t.len(), 2);
    assert_eq!(t.lookup(1), Some("B"));
}

#[test]
fn lookup_returns_what_was_interned() {
    let mut t = Interner::new();
    for name in ["x", "", "node-17", "\u{fc}n\u{ef}c\u{f6}d\u{e9}", "x y"] {
        let id = t.intern(name);
        assert_eq!(t.lookup(id), Some(name));
    }
}

#[test]
fn intern_is_idempotent() {
    let mut t = Interner::new();
    let first = t.intern("same");
    t.intern("other");
    let second = t.intern("same");
    assert_eq!(first, second);
    assert_eq!(t.len(), 2);
}

#[test]
fn intern_takes_smallest_unused_index() {
    let mut t = Interner::new();
    for i in 0..100u32 {
        assert_eq!(t.intern(&format!("n{}", i)), i);
    }
    assert_eq!(t.len(), 100);
    assert_eq!(t.lookup(99), Some("n99"));
}

#[test]
fn lookup_of_unknown_index_is_absent() {
    let mut t = Interner::new();
    t.intern("A");
    assert_eq!(t.lookup(1), None);
    assert_eq!(t.lookup(u32::MAX), None);
}

#[test]
fn lookup_id_does_not_intern() {
    let mut t = Interner::new();
    assert_eq!(t.lookup_id("A"), None);
    assert_eq!(t.len(), 0);
    t.intern("A");
    assert_eq!(t.lookup_id("A"), Some(0));
    assert_eq!(t.lookup_id("a"), None);
    assert_eq!(t.len(), 1);
}

#[test]
fn empty_interner() {
    let t = Interner::new();
    assert!(t.is_empty());
    assert_eq!(t.len(), 0);
    let d = Interner::default();
    assert!(d.is_empty());
    let mut u = Interner::new();
    u.intern("A");
    assert!(!u.is_empty());
}

#[test]
fn names_are_exported_by_index() {
    let mut t = Interner::new();
    t.intern("b");
    t.intern("a");
    t.intern("b");
    assert_eq!(t.names(), vec!["b".to_string(), "a".to_string()]);
}

#[test]
fn type_interner_has_256_indices() {
    let mut t = TypeInterner::new();
    for i in 0..256usize {
        assert_eq!(t.intern(&format!("t{}", i)), Ok(i as u8));
    }
    assert_eq!(t.len(), 256);
    assert_eq!(t.intern("one too many"), Err(GraphError::TooManyEdgeTypes));
    assert_eq!(t.len(), 256);
    assert_eq!(t.intern("t255"), Ok(255));
    assert_eq!(t.lookup(255), Some("t255"));
    assert_eq!(t.lookup_id("t7"), Some(7));
    assert_eq!(t.lookup_id("one too many"), None);
}

#[test]
fn type_interner_starts_empty() {
    let mut t = TypeInterner::new();
    assert!(t.is_empty());
    assert_eq!(t.lookup(0), None);
    assert_eq!(t.intern("knows"), Ok(0));
    assert_eq!(t.intern("knows"), Ok(0));
    assert!(!t.is_empty());
    assert_eq!(t.names(), vec!["knows".to_string()]);
}
