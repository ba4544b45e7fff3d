use std::cmp::Ordering;
use symbol_table::symbol::Symbol;

#[test]
fn test_symbol_creation() {
    let s = Symbol::new(0);
    assert_eq!(s.as_u32(), 0);
    assert_eq!(s.as_usize(), 0);
}

#[test]
fn test_symbol_equality() {
    let a = Symbol::new(1);
    let b = Symbol::new(1);
    let c = Symbol::new(2);
    assert_eq!(a, b);
    assert_ne!(a, c);
}

#[test]
fn test_symbol_ordering() {
    let a = Symbol::new(1);
    let b = Symbol::new(2);
    assert!(a < b);
}

#[test]
fn test_placeholder() {
    let p = Symbol::placeholder();
    assert!(p.is_placeholder());
    let s = Symbol::new(0);
    assert!(!s.is_placeholder());
}

#[test]
fn test_symbol_display() {
    let s = Symbol::new(42);
    assert_eq!(s.to_display_string(), "sym#42");
}

#[test]
fn test_symbol_debug() {
    let s = Symbol::new(42);
    assert_eq!(format!("{:?}", s), "Symbol(42)");
}

#[test]
fn test_symbol_copy() {
    let a = Symbol::new(5);
    let b = a;
    assert_eq!(a, b);
}

#[test]
fn display_edge_values() {
    assert_eq!(Symbol::new(0).to_display_string(), "sym#0");
    assert_eq!(Symbol::new(9).to_display_string(), "sym#9");
    assert_eq!(Symbol::new(10).to_display_string(), "sym#10");
    assert_eq!(Symbol::new(100).to_debug_string(), "Symbol(100)");
    assert_eq!(Symbol::placeholder().to_display_string(), "sym#4294967295");
    assert_eq!(Symbol::placeholder().to_debug_string(), "Symbol(4294967295)");
}

#[test]
fn debug_text_matches_to_debug_string() {
    assert_eq!(format!("{:?}", Symbol::new(7)), Symbol::new(7).to_debug_string());
    assert_eq!(format!("{:?}", Symbol::placeholder()), "Symbol(4294967295)");
}

#[test]
fn ordering_follows_index() {
    assert_eq!(Symbol::new(3).partial_cmp(&Symbol::new(3)), Some(Ordering::Equal));
    assert_eq!(Symbol::new(4).partial_cmp(&Symbol::new(3)), Some(Ordering::Greater));
    assert_eq!(Symbol::new(3).cmp(&Symbol::new(4)), Ordering::Less);
    assert!(Symbol::new(0) <= Symbol::new(0));
    assert!(!(Symbol::new(9) < Symbol::new(2)));
}

#[test]
fn placeholder_index_is_max() {
    let p = Symbol::placeholder();
    assert_eq!(p.as_u32(), u32::MAX);
    assert!(Symbol::new(u32::MAX).is_placeholder());
    assert!(Symbol::new(3) < p);
}
