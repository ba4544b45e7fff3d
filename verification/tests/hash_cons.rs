use symbol_table::hash_cons::HashCons;

#[test]
fn test_cons_new() {
    let mut hc = HashCons::new();
    let v = hc.cons(b"hello");
    assert_eq!(hc.get(v), Some(&b"hello"[..]));
}

#[test]
fn test_cons_dedup() {
    let mut hc = HashCons::new();
    let a = hc.cons(b"data");
    let b = hc.cons(b"data");
    assert_eq!(a, b);
    assert_eq!(hc.len(), 1);
    assert_eq!(hc.total_operations(), 2); // counter increments even on dedup
}

#[test]
fn test_cons_different() {
    let mut hc = HashCons::new();
    let a = hc.cons(b"aaa");
    let b = hc.cons(b"bbb");
    assert_ne!(a, b);
    assert_eq!(hc.len(), 2);
}

#[test]
fn test_hash_cons_empty() {
    let hc = HashCons::new();
    assert!(hc.is_empty());
}

#[test]
fn cons_handles_are_positions() {
    let mut hc = HashCons::default();
    let a = hc.cons(b"x");
    let b = hc.cons(b"y");
    let c = hc.cons(b"z");
    assert_eq!(a.id(), 0);
    assert_eq!(b.id(), 1);
    assert_eq!(c.id(), 2);
    assert_eq!(hc.get(b), Some(&b"y"[..]));
    assert!(!hc.is_empty());
}

#[test]
fn cons_same_bytes_after_other_ops_same_handle() {
    let mut hc = HashCons::new();
    let a = hc.cons(b"shared");
    hc.cons(b"other");
    hc.cons(b"third");
    let again = hc.cons(b"shared");
    assert_eq!(a, again);
    assert_eq!(hc.len(), 3);
    assert_eq!(hc.total_operations(), 4);
    assert_eq!(hc.get(again), Some(&b"shared"[..]));
}

#[test]
fn cons_empty_slice() {
    let mut hc = HashCons::new();
    let e = hc.cons(b"");
    assert_eq!(hc.get(e), Some(&b""[..]));
    let f = hc.cons(&[]);
    assert_eq!(e, f);
}

#[test]
fn get_unknown_handle_is_none() {
    let mut hc = HashCons::new();
    let a = hc.cons(b"one");
    let mut other = HashCons::new();
    other.cons(b"p");
    let far = other.cons(b"q");
    assert_eq!(a.id(), 0);
    assert_eq!(far.id(), 1);
    assert_eq!(hc.get(far), None);
}

#[test]
fn cons_with_hash_follows_given_digest() {
    let mut hc = HashCons::new();
    let a = hc.cons_with_hash(7, b"first");
    let b = hc.cons_with_hash(7, b"second");
    assert_eq!(a, b);
    assert_eq!(hc.get(b), Some(&b"first"[..]));
    let c = hc.cons_with_hash(8, b"first");
    assert_ne!(a, c);
    assert_eq!(hc.len(), 2);
    assert_eq!(hc.total_operations(), 3);
}

#[test]
fn digest_depends_on_bytes() {
    let mut hc = HashCons::new();
    let mut ids = Vec::new();
    for i in 0u8..20 {
        ids.push(hc.cons(&[i, i]).id());
    }
    assert_eq!(ids, (0u64..20).collect::<Vec<u64>>());
    assert_eq!(hc.len(), 20);
}
