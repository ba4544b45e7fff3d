use symbol_table::intern::StringInterner;

#[test]
fn test_intern_new() {
    let mut interner = StringInterner::new();
    let sym = interner.intern("hello");
    assert_eq!(interner.get(sym), Some("hello"));
}

#[test]
fn test_intern_dedup() {
    let mut interner = StringInterner::new();
    let a = interner.intern("foo");
    let b = interner.intern("foo");
    assert_eq!(a, b);
    assert_eq!(interner.len(), 1);
}

#[test]
fn test_intern_different() {
    let mut interner = StringInterner::new();
    let a = interner.intern("foo");
    let b = interner.intern("bar");
    assert_ne!(a, b);
    assert_eq!(interner.len(), 2);
}

#[test]
fn test_interner_empty() {
    let interner = StringInterner::new();
    assert!(interner.is_empty());
    assert_eq!(interner.len(), 0);
}

#[test]
fn test_contains() {
    let mut interner = StringInterner::new();
    assert!(!interner.contains("test"));
    interner.intern("test");
    assert!(interner.contains("test"));
}

#[test]
fn test_get_symbol() {
    let mut interner = StringInterner::new();
    let sym = interner.intern("x");
    assert_eq!(interner.get_symbol("x"), Some(sym));
    assert_eq!(interner.get_symbol("y"), None);
}

#[test]
fn intern_indices_follow_first_appearance() {
    let mut interner = StringInterner::default();
    let a = interner.intern("a");
    let b = interner.intern("b");
    let a2 = interner.intern("a");
    let c = interner.intern("c");
    assert_eq!(a.as_u32(), 0);
    assert_eq!(b.as_u32(), 1);
    assert_eq!(a2.as_u32(), 0);
    assert_eq!(c.as_u32(), 2);
    assert_eq!(c.as_usize(), 2);
    assert_eq!(interner.len(), 3);
    assert_eq!(interner.get(b), Some("b"));
}

#[test]
fn get_out_of_range_is_none() {
    let mut interner = StringInterner::new();
    interner.intern("only");
    let mut other = StringInterner::new();
    other.intern("p");
    let far = other.intern("q");
    assert_eq!(interner.get(far), None);
}

#[test]
fn intern_empty_and_unicode_strings() {
    let mut interner = StringInterner::new();
    let e = interner.intern("");
    let u = interner.intern("λx→y");
    assert_ne!(e, u);
    assert_eq!(interner.get(e), Some(""));
    assert_eq!(interner.get(u), Some("λx→y"));
    assert!(interner.contains(""));
    assert_eq!(interner.get_symbol("λx→y"), Some(u));
}
