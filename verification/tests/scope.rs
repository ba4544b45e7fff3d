use symbol_table::intern::StringInterner;
use symbol_table::scope::{Scope, ScopeManager, SymbolInfo};
use symbol_table::symbol::Symbol;

#[test]
fn test_scope_new() {
    let scope = Scope::new(0, None);
    assert_eq!(scope.depth(), 0);
    assert!(scope.is_empty());
}

#[test]
fn test_scope_insert_lookup() {
    let mut scope = Scope::new(0, None);
    let sym = Symbol::new(0);
    scope.insert("x", sym, 1);
    let info = scope.lookup_local("x").unwrap();
    assert_eq!(info.symbol, sym);
    assert_eq!(info.kind, 1);
}

#[test]
fn test_scope_manager_push_pop() {
    let mut sm = ScopeManager::new();
    assert_eq!(sm.scope_count(), 1);
    sm.push_scope();
    assert_eq!(sm.scope_count(), 2);
    sm.push_scope();
    assert_eq!(sm.scope_count(), 3);
    assert!(sm.pop_scope());
    assert_eq!(sm.scope_count(), 2);
}

#[test]
fn test_scope_manager_cannot_pop_global() {
    let mut sm = ScopeManager::new();
    assert!(!sm.pop_scope());
}

#[test]
fn test_scope_lookup_through_parents() {
    let mut sm = ScopeManager::new();
    let mut interner = StringInterner::new();
    sm.define("x", 1, &mut interner);
    sm.push_scope();
    sm.push_scope();
    let info = sm.lookup("x", &interner).unwrap();
    assert_eq!(info.depth, 0);
}

#[test]
fn scope_accessors() {
    let mut scope = Scope::new(3, Some(2));
    assert_eq!(scope.depth(), 3);
    assert_eq!(scope.parent(), Some(2));
    scope.insert("a", Symbol::new(4), 7);
    scope.insert("b", Symbol::new(5), 8);
    assert_eq!(scope.len(), 2);
    assert!(!scope.is_empty());
    let info = scope.lookup_symbol(Symbol::new(5)).unwrap();
    assert_eq!(info, &SymbolInfo { symbol: Symbol::new(5), kind: 8, depth: 3 });
    assert!(scope.lookup_symbol(Symbol::new(6)).is_none());
    assert!(scope.lookup_local("c").is_none());
}

#[test]
fn scope_reinsert_name_points_to_latest_symbol() {
    let mut scope = Scope::new(0, None);
    scope.insert("x", Symbol::new(1), 0);
    scope.insert("x", Symbol::new(2), 3);
    assert_eq!(scope.lookup_local("x").unwrap().symbol, Symbol::new(2));
    assert_eq!(scope.lookup_local("x").unwrap().kind, 3);
    assert_eq!(scope.len(), 2);
    assert!(scope.lookup_symbol(Symbol::new(1)).is_some());
}

#[test]
fn scope_bindings_lists_each_binding_once() {
    let mut scope = Scope::new(1, Some(0));
    scope.insert("a", Symbol::new(0), 1);
    scope.insert("b", Symbol::new(1), 2);
    scope.insert("c", Symbol::new(2), 3);
    let mut all: Vec<(u32, u8)> = scope.bindings().iter().map(|(s, i)| (s.as_u32(), i.kind)).collect();
    all.sort();
    assert_eq!(all, vec![(0, 1), (1, 2), (2, 3)]);
}

#[test]
fn manager_depth_and_shadowing() {
    let mut sm = ScopeManager::default();
    let mut interner = StringInterner::new();
    assert_eq!(sm.current_depth(), 0);
    let outer = sm.define("v", 0, &mut interner);
    assert_eq!(sm.push_scope(), 1);
    assert_eq!(sm.current_depth(), 1);
    let inner = sm.define("v", 2, &mut interner);
    assert_eq!(outer, inner);
    let info = sm.lookup("v", &interner).unwrap();
    assert_eq!(info.depth, 1);
    assert_eq!(info.kind, 2);
    assert!(sm.pop_scope());
    let info = sm.lookup("v", &interner).unwrap();
    assert_eq!(info.depth, 0);
    assert_eq!(info.kind, 0);
    assert!(sm.lookup("w", &interner).is_none());
}

#[test]
fn manager_lookup_interned_but_unbound() {
    let mut sm = ScopeManager::new();
    let mut interner = StringInterner::new();
    sm.push_scope();
    sm.define("tmp", 0, &mut interner);
    sm.pop_scope();
    assert!(interner.contains("tmp"));
    assert!(sm.lookup("tmp", &interner).is_none());
}
