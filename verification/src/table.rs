//! High-level symbol table combining interning and scopes.

use crate::intern::StringInterner;
use crate::scope::{ScopeManager, SymbolInfo};
use crate::symbol::Symbol;
use vstd::prelude::*;

verus! {

/// Symbol kind constants.
pub const KIND_VARIABLE: u8 = 0;

pub const KIND_FUNCTION: u8 = 1;

pub const KIND_TYPE: u8 = 2;

pub const KIND_CONSTANT: u8 = 3;

/// A full symbol table with interning and scoped lookup.
pub struct SymbolTable {
    interner: StringInterner,
    scopes: ScopeManager,
}

impl SymbolTable {
    /// The interner that names are resolved with.
    pub closed spec fn names(&self) -> StringInterner {
        self.interner
    }

    /// The stack of scopes.
    pub closed spec fn stack(&self) -> ScopeManager {
        self.scopes
    }

    /// Well-formedness: both parts are well formed, and every binding is keyed by
    /// the index of a symbol the interner has handed out.
    pub open spec fn wf(&self) -> bool {
        &&& self.names().wf()
        &&& self.stack().wf()
        &&& forall|i: int, k: u32|
            0 <= i < self.stack().scope_seq().len() && #[trigger] self.stack().scope_seq()[i].binding_map().contains_key(k)
                ==> (k as int) < self.names().strings().len()
    }

    /// What a lookup of `name` finds.
    pub open spec fn lookup_spec(&self, name: Seq<char>) -> Option<SymbolInfo> {
        self.stack().lookup_spec(name, &self.names())
    }

    /// What defining `name` with `kind` does, when it returns `sym`.
    pub open spec fn define_step(pre: &SymbolTable, post: &SymbolTable, name: Seq<char>, kind: u8, sym: Symbol) -> bool {
        &&& StringInterner::intern_step(&pre.names(), &post.names(), name, sym)
        &&& ScopeManager::define_step(&pre.stack(), &post.stack(), name, sym, kind)
    }

    /// Create a new symbol table with a global scope.
    pub fn new() -> (t: Self)
        ensures
            t.wf(),
            t.names().strings() == Seq::<Seq<char>>::empty(),
            t.stack().scope_seq().len() == 1,
            t.stack().scope_seq()[0].binding_map() == Map::<u32, SymbolInfo>::empty(),
            t.stack().scope_seq()[0].name_map() == Map::<Seq<char>, Symbol>::empty(),
    {
        Self { interner: StringInterner::new(), scopes: ScopeManager::new() }
    }

    /// Define a variable symbol in the current scope.
    pub fn define_variable(&mut self, name: &str) -> (sym: Symbol)
        requires
            old(self).wf(),
        ensures
            final(self).wf(),
            SymbolTable::define_step(old(self), final(self), name@, KIND_VARIABLE, sym),
    {
        let ghost pre = *self;
        let sym = self.scopes.define(name, KIND_VARIABLE, &mut self.interner);
        proof {
            lemma_define_keeps_keys_interned(&pre, self, name@, KIND_VARIABLE, sym);
        }
        sym
    }

    /// Define a function symbol in the current scope.
    pub fn define_function(&mut self, name: &str) -> (sym: Symbol)
        requires
            old(self).wf(),
        ensures
            final(self).wf(),
            SymbolTable::define_step(old(self), final(self), name@, KIND_FUNCTION, sym),
    {
        let ghost pre = *self;
        let sym = self.scopes.define(name, KIND_FUNCTION, &mut self.interner);
        proof {
            lemma_define_keeps_keys_interned(&pre, self, name@, KIND_FUNCTION, sym);
        }
        sym
    }

    /// Define a type symbol in the current scope.
    pub fn define_type(&mut self, name: &str) -> (sym: Symbol)
        requires
            old(self).wf(),
        ensures
            final(self).wf(),
            SymbolTable::define_step(old(self), final(self), name@, KIND_TYPE, sym),
    {
        let ghost pre = *self;
        let sym = self.scopes.define(name, KIND_TYPE, &mut self.interner);
        proof {
            lemma_define_keeps_keys_interned(&pre, self, name@, KIND_TYPE, sym);
        }
        sym
    }

    /// Define a constant symbol in the current scope.
    pub fn define_constant(&mut self, name: &str) -> (sym: Symbol)
        requires
            old(self).wf(),
        ensures
            final(self).wf(),
            SymbolTable::define_step(old(self), final(self), name@, KIND_CONSTANT, sym),
    {
        let ghost pre = *self;
        let sym = self.scopes.define(name, KIND_CONSTANT, &mut self.interner);
        proof {
            lemma_define_keeps_keys_interned(&pre, self, name@, KIND_CONSTANT, sym);
        }
        sym
    }

    /// Look up a symbol by name, searching from current scope upward.
    pub fn lookup(&self, name: &str) -> (r: Option<&SymbolInfo>)
        requires
            self.wf(),
        ensures
            r is Some <==> self.lookup_spec(name@) is Some,
            r matches Some(info) ==> *info == self.lookup_spec(name@).unwrap(),
    {
        self.scopes.lookup(name, &self.interner)
    }

    /// Get the string for a symbol handle.
    pub fn get_name(&self, sym: Symbol) -> (r: Option<&str>)
        ensures
            r is Some <==> (sym.index() as int) < self.names().strings().len(),
            r matches Some(t) ==> t@ == self.names().strings()[sym.index() as int],
    {
        self.interner.get(sym)
    }

    /// Push a new scope.
    pub fn push_scope(&mut self)
        requires
            old(self).wf(),
        ensures
            final(self).wf(),
            final(self).names() == old(self).names(),
            final(self).stack().scope_seq().len() == old(self).stack().scope_seq().len() + 1,
            final(self).stack().scope_seq().drop_last() == old(self).stack().scope_seq(),
            final(self).stack().scope_seq().last().binding_map() == Map::<u32, SymbolInfo>::empty(),
            final(self).stack().scope_seq().last().name_map() == Map::<Seq<char>, Symbol>::empty(),
    {
        let ghost pre = *self;
        self.scopes.push_scope();
        proof {
            assert forall|i: int, k: u32|
                0 <= i < self.stack().scope_seq().len()
                    && #[trigger] self.stack().scope_seq()[i].binding_map().contains_key(k)
                implies (k as int) < self.names().strings().len() by {
                if i < pre.stack().scope_seq().len() {
                    assert(self.stack().scope_seq()[i] == self.stack().scope_seq().drop_last()[i]);
                }
            }
        }
    }

    /// Pop the current scope.
    pub fn pop_scope(&mut self) -> (popped: bool)
        requires
            old(self).wf(),
        ensures
            final(self).wf(),
            final(self).names() == old(self).names(),
            popped <==> old(self).stack().scope_seq().len() > 1,
            popped ==> final(self).stack().scope_seq() == old(self).stack().scope_seq().drop_last(),
            !popped ==> final(self).stack().scope_seq() == old(self).stack().scope_seq(),
    {
        let ghost pre = *self;
        let popped = self.scopes.pop_scope();
        proof {
            assert forall|i: int, k: u32|
                0 <= i < self.stack().scope_seq().len()
                    && #[trigger] self.stack().scope_seq()[i].binding_map().contains_key(k)
                implies (k as int) < self.names().strings().len() by {
                assert(self.stack().scope_seq()[i] == pre.stack().scope_seq()[i]);
            }
        }
        popped
    }

    /// Current scope depth (0 = global).
    pub fn depth(&self) -> (d: usize)
        requires
            self.wf(),
        ensures
            d == self.stack().scope_seq().len() - 1,
    {
        self.scopes.current_depth()
    }

    /// Number of interned strings.
    pub fn symbol_count(&self) -> (n: usize)
        ensures
            n == self.names().strings().len(),
    {
        self.interner.len()
    }
}

impl Default for SymbolTable {
    fn default() -> (t: Self)
        ensures
            t.wf(),
            t.names().strings() == Seq::<Seq<char>>::empty(),
            t.stack().scope_seq().len() == 1,
            t.stack().scope_seq()[0].binding_map() == Map::<u32, SymbolInfo>::empty(),
            t.stack().scope_seq()[0].name_map() == Map::<Seq<char>, Symbol>::empty(),
    {
        Self::new()
    }
}

/// Defining keeps the table well formed: the new binding is keyed by a symbol
/// the interner has handed out.
proof fn lemma_define_keeps_keys_interned(pre: &SymbolTable, post: &SymbolTable, name: Seq<char>, kind: u8, sym: Symbol)
    requires
        pre.wf(),
        post.names().wf(),
        post.stack().wf(),
        SymbolTable::define_step(pre, post, name, kind, sym),
    ensures
        post.wf(),
{
    let n = pre.stack().scope_seq().len();
    assert forall|i: int, k: u32|
        0 <= i < post.stack().scope_seq().len()
            && #[trigger] post.stack().scope_seq()[i].binding_map().contains_key(k)
        implies (k as int) < post.names().strings().len() by {
        if i < n - 1 {
            assert(post.stack().scope_seq()[i] == pre.stack().scope_seq()[i]);
        } else if k != sym.index() {
            assert(pre.stack().scope_seq()[i].binding_map().contains_key(k));
        } else if pre.names().table().contains_key(name) {
            assert(pre.names().table().contains_key(name));
        }
    }
}

/// A lookup right after a definition finds it: the symbol returned, the kind given,
/// and the current depth. A definition in an inner scope thus shadows outer ones.
pub proof fn lemma_define_then_lookup(pre: &SymbolTable, post: &SymbolTable, name: Seq<char>, kind: u8, sym: Symbol)
    requires
        pre.wf(),
        SymbolTable::define_step(pre, post, name, kind, sym),
    ensures
        post.lookup_spec(name) == Some(
            SymbolInfo { symbol: sym, kind, depth: (pre.stack().scope_seq().len() - 1) as usize },
        ),
{
    crate::scope::lemma_define_then_lookup(&pre.stack(), &post.stack(), &pre.names(), &post.names(), name, sym, kind);
}

/// Defining a name that was defined before, in any scope, returns the same symbol
/// as long as the interner kept its table in between (as every operation does).
pub proof fn lemma_define_same_name_same_symbol(
    a: &SymbolTable,
    b: &SymbolTable,
    c: &SymbolTable,
    d: &SymbolTable,
    name: Seq<char>,
    k1: u8,
    k2: u8,
    x: Symbol,
    y: Symbol,
)
    requires
        SymbolTable::define_step(a, b, name, k1, x),
        b.names().table().submap_of(c.names().table()),
        SymbolTable::define_step(c, d, name, k2, y),
    ensures
        y == x,
{
    crate::intern::lemma_intern_same_string_same_symbol(&a.names(), &b.names(), &c.names(), &d.names(), name, x, y);
}

/// The name of a defined symbol is the name it was defined with, as long as the
/// table then holds at most `u32::MAX + 1` names.
pub proof fn lemma_define_then_get_name(pre: &SymbolTable, post: &SymbolTable, name: Seq<char>, kind: u8, sym: Symbol)
    requires
        pre.wf(),
        post.wf(),
        SymbolTable::define_step(pre, post, name, kind, sym),
        post.names().strings().len() <= u32::MAX as int + 1,
    ensures
        (sym.index() as int) < post.names().strings().len(),
        post.names().strings()[sym.index() as int] == name,
{
    crate::intern::lemma_intern_then_get(&pre.names(), &post.names(), name, sym);
}

/// Pushing a scope hides nothing: right after `push_scope`, every name resolves
/// as it did before.
pub proof fn lemma_push_keeps_lookups(pre: &SymbolTable, post: &SymbolTable, name: Seq<char>)
    requires
        pre.wf(),
        post.names() == pre.names(),
        post.stack().scope_seq().len() == pre.stack().scope_seq().len() + 1,
        post.stack().scope_seq().drop_last() == pre.stack().scope_seq(),
        post.stack().scope_seq().last().binding_map() == Map::<u32, SymbolInfo>::empty(),
    ensures
        post.lookup_spec(name) == pre.lookup_spec(name),
{
    crate::scope::lemma_push_keeps_lookups(&pre.stack(), &post.stack(), &pre.names(), name);
}

/// Interning more names does not change what any name resolves to, as long as
/// no binding uses a symbol the smaller interner had not handed out and the
/// larger interner holds at most `u32::MAX + 1` names.
proof fn lemma_lookup_stable_under_interning(
    m: &ScopeManager,
    t1: &StringInterner,
    t2: &StringInterner,
    name: Seq<char>,
)
    requires
        m.wf(),
        t1.wf(),
        t2.wf(),
        t1.table().submap_of(t2.table()),
        t1.strings().len() <= t2.strings().len(),
        forall|i: int| 0 <= i < t1.strings().len() ==> #[trigger] t2.strings()[i] == t1.strings()[i],
        t2.strings().len() <= u32::MAX as int + 1,
        forall|i: int, k: u32|
            0 <= i < m.scope_seq().len() && #[trigger] m.scope_seq()[i].binding_map().contains_key(k)
                ==> (k as int) < t1.strings().len(),
    ensures
        m.lookup_spec(name, t1) == m.lookup_spec(name, t2),
{
    let top = m.scope_seq().len() - 1;
    if t1.table().contains_key(name) {
        assert(t2.table()[name] == t1.table()[name]);
    } else if t2.table().contains_key(name) {
        let p = t2.table()[name];
        if (p as int) < t1.strings().len() {
            assert(t2.strings()[p as int] == name);
            assert(t1.table().contains_key(t1.strings()[p as int]));
        }
        crate::scope::lemma_resolve_found_binding(m, top, p);
        if let Some(info) = crate::scope::resolve(m.scope_seq(), top, p) {
            assert(m.scope_seq()[info.depth as int].binding_map().contains_key(p));
        }
    }
}

/// Leaving a scope restores every lookup: if a scope was pushed onto the table
/// `before`, names were defined in it (changing only that scope and only adding
/// to the interner), and it was popped again, giving `after`, then every name
/// resolves in `after` as it did in `before`, as long as `after` holds at most
/// `u32::MAX + 1` names.
pub proof fn lemma_pop_restores_lookup(before: &SymbolTable, inner: &SymbolTable, after: &SymbolTable, name: Seq<char>)
    requires
        before.wf(),
        inner.wf(),
        after.wf(),
        inner.stack().scope_seq().len() == before.stack().scope_seq().len() + 1,
        inner.stack().scope_seq().drop_last() == before.stack().scope_seq(),
        before.names().table().submap_of(inner.names().table()),
        before.names().strings().len() <= inner.names().strings().len(),
        forall|i: int|
            0 <= i < before.names().strings().len() ==> #[trigger] inner.names().strings()[i]
                == before.names().strings()[i],
        after.stack().scope_seq() == inner.stack().scope_seq().drop_last(),
        after.names() == inner.names(),
        after.names().strings().len() <= u32::MAX as int + 1,
    ensures
        after.lookup_spec(name) == before.lookup_spec(name),
{
    assert(after.stack().scope_seq() == before.stack().scope_seq());
    lemma_lookup_stable_under_interning(&before.stack(), &before.names(), &after.names(), name);
}

} // verus!
