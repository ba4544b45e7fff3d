use symbol_table::{SymbolKind, SymbolTable};

#[test]
fn test_define_lookup() {
    let mut st = SymbolTable::new();
    st.define("x", SymbolKind::Variable { mutable: false }).unwrap();
    assert!(st.lookup("x").is_some());
}

#[test]
fn test_scope_nesting() {
    let mut st = SymbolTable::new();
    st.define("x", SymbolKind::Variable { mutable: false }).unwrap();
    st.enter_scope();
    st.define("y", SymbolKind::Variable { mutable: true }).unwrap();
    assert!(st.lookup("x").is_some());
    assert!(st.lookup("y").is_some());
    st.leave_scope();
    assert!(st.lookup("y").is_none());
}

#[test]
fn readme_quick_start() {
    let mut st = SymbolTable::new();
    st.define("pi", SymbolKind::Variable { mutable: false }).unwrap();
    st.enter_scope();
    st.define("x", SymbolKind::Variable { mutable: true }).unwrap();
    assert!(st.lookup("x").is_some());
    assert!(st.lookup("pi").is_some());
    st.leave_scope();
    assert!(st.lookup("x").is_none());
    assert!(st.lookup("pi").is_some());
}

#[test]
fn duplicate_definition_is_refused() {
    let mut st = SymbolTable::new();
    st.define("x", SymbolKind::Module).unwrap();
    let err = st.define("x", SymbolKind::TypeAlias).unwrap_err();
    assert_eq!(err, "Symbol 'x' already defined in this scope");
    assert_eq!(st.lookup("x").unwrap().kind, SymbolKind::Module);
    assert_eq!(st.all_symbols().len(), 1);
}

#[test]
fn shadowing_in_child_scope() {
    let mut st = SymbolTable::default();
    st.define("x", SymbolKind::Variable { mutable: false }).unwrap();
    let child = st.enter_scope();
    st.define("x", SymbolKind::Function { params: vec!["a".to_string()] }).unwrap();
    let found = st.lookup("x").unwrap();
    assert_eq!(found.scope_id, child);
    assert_eq!(found.kind, SymbolKind::Function { params: vec!["a".to_string()] });
    st.leave_scope();
    let found = st.lookup("x").unwrap();
    assert_eq!(found.scope_id, 0);
    assert_eq!(found.name, "x");
    assert_eq!(found.ty, None);
    assert!(!found.exported);
}

#[test]
fn scope_ids_depth_and_leave_at_root() {
    let mut st = SymbolTable::new();
    assert_eq!(st.current_scope(), 0);
    assert_eq!(st.scope_depth(), 0);
    assert_eq!(st.leave_scope(), None);
    assert_eq!(st.current_scope(), 0);
    assert_eq!(st.enter_scope(), 1);
    assert_eq!(st.enter_scope(), 2);
    assert_eq!(st.scope_depth(), 2);
    assert_eq!(st.leave_scope(), Some(1));
    assert_eq!(st.leave_scope(), Some(0));
    assert_eq!(st.enter_scope(), 3);
    assert_eq!(st.scope_depth(), 1);
    assert_eq!(st.current_scope(), 3);
}

#[test]
fn sibling_scopes_do_not_see_each_other() {
    let mut st = SymbolTable::new();
    st.enter_scope();
    st.define("a", SymbolKind::Module).unwrap();
    st.leave_scope();
    st.enter_scope();
    assert!(st.lookup("a").is_none());
    st.define("a", SymbolKind::TypeAlias).unwrap();
    assert_eq!(st.lookup("a").unwrap().scope_id, 2);
}

#[test]
fn lookup_mut_changes_are_visible() {
    let mut st = SymbolTable::new();
    st.define("v", SymbolKind::Variable { mutable: false }).unwrap();
    st.enter_scope();
    {
        let sym = st.lookup_mut("v").unwrap();
        sym.ty = Some("i32".to_string());
        sym.exported = true;
    }
    let sym = st.lookup("v").unwrap();
    assert_eq!(sym.ty, Some("i32".to_string()));
    assert!(sym.exported);
    assert!(st.lookup_mut("missing").is_none());
}

#[test]
fn lookup_mut_rename_keeps_key() {
    let mut st = SymbolTable::new();
    st.define("old", SymbolKind::Module).unwrap();
    st.lookup_mut("old").unwrap().name = "new".to_string();
    assert_eq!(st.lookup("old").unwrap().name, "new");
    assert!(st.lookup("new").is_none());
    assert!(st.define("old", SymbolKind::Module).is_err());
}

#[test]
fn all_symbols_in_scope_then_declaration_order() {
    let mut st = SymbolTable::new();
    st.define("g1", SymbolKind::Module).unwrap();
    st.define("g2", SymbolKind::Module).unwrap();
    st.enter_scope();
    st.define("l1", SymbolKind::TypeAlias).unwrap();
    st.leave_scope();
    let names: Vec<String> = st.all_symbols().iter().map(|s| s.name.clone()).collect();
    assert_eq!(names, vec!["g1".to_string(), "g2".to_string(), "l1".to_string()]);
}
