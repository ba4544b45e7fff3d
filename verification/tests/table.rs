use symbol_table::table::{SymbolTable, KIND_CONSTANT, KIND_FUNCTION, KIND_TYPE, KIND_VARIABLE};

#[test]
fn test_define_lookup_variable() {
    let mut st = SymbolTable::new();
    let sym = st.define_variable("x");
    let info = st.lookup("x").unwrap();
    assert_eq!(info.symbol, sym);
    assert_eq!(info.kind, KIND_VARIABLE);
}

#[test]
fn test_shadowing() {
    let mut st = SymbolTable::new();
    st.define_variable("x");
    st.push_scope();
    let inner = st.define_variable("x");
    let info = st.lookup("x").unwrap();
    assert_eq!(info.symbol, inner);
    assert_eq!(info.depth, 1);
}

#[test]
fn test_scope_pop_restores() {
    let mut st = SymbolTable::new();
    let outer = st.define_variable("y");
    st.push_scope();
    st.define_variable("y");
    st.pop_scope();
    let info = st.lookup("y").unwrap();
    assert_eq!(info.symbol, outer);
    assert_eq!(info.depth, 0);
}

#[test]
fn test_get_name() {
    let mut st = SymbolTable::new();
    let sym = st.define_function("main");
    assert_eq!(st.get_name(sym), Some("main"));
}

#[test]
fn test_multiple_kinds() {
    let mut st = SymbolTable::new();
    st.define_variable("x");
    st.define_function("foo");
    st.define_type("MyType");
    st.define_constant("PI");
    assert_eq!(st.symbol_count(), 4);
}

#[test]
fn test_lookup_not_found() {
    let st = SymbolTable::new();
    assert!(st.lookup("nonexistent").is_none());
}

#[test]
fn kinds_are_recorded() {
    let mut st = SymbolTable::default();
    st.define_function("f");
    st.define_type("T");
    st.define_constant("C");
    assert_eq!(st.lookup("f").unwrap().kind, KIND_FUNCTION);
    assert_eq!(st.lookup("T").unwrap().kind, KIND_TYPE);
    assert_eq!(st.lookup("C").unwrap().kind, KIND_CONSTANT);
    assert_eq!((KIND_VARIABLE, KIND_FUNCTION, KIND_TYPE, KIND_CONSTANT), (0, 1, 2, 3));
}

#[test]
fn depth_push_pop_and_global_pop() {
    let mut st = SymbolTable::new();
    assert_eq!(st.depth(), 0);
    assert!(!st.pop_scope());
    assert_eq!(st.depth(), 0);
    st.push_scope();
    st.push_scope();
    assert_eq!(st.depth(), 2);
    assert!(st.pop_scope());
    assert_eq!(st.depth(), 1);
}

#[test]
fn pop_hides_inner_only_names() {
    let mut st = SymbolTable::new();
    st.push_scope();
    let t = st.define_variable("tmp");
    assert!(st.pop_scope());
    assert!(st.lookup("tmp").is_none());
    assert_eq!(st.get_name(t), Some("tmp"));
    assert_eq!(st.symbol_count(), 1);
}

#[test]
fn same_name_same_symbol_across_scopes() {
    let mut st = SymbolTable::new();
    let a = st.define_variable("n");
    st.push_scope();
    let b = st.define_function("n");
    assert_eq!(a, b);
    assert_eq!(st.symbol_count(), 1);
    assert_eq!(st.lookup("n").unwrap().kind, KIND_FUNCTION);
}
