//! Scoped symbol management.

use crate::intern::StringInterner;
use crate::symbol::Symbol;
use std::collections::HashMap;
use vstd::hash_map::StringHashMap;
use vstd::prelude::*;

verus! {

/// Metadata attached to a symbol in a scope.
#[derive(Clone, Debug, PartialEq, Eq, Structural)]
pub struct SymbolInfo {
    /// The interned symbol.
    pub symbol: Symbol,
    /// User-defined kind (e.g., variable, function, type).
    pub kind: u8,
    /// Optional depth level where defined.
    pub depth: usize,
}

/// A single scope level in a scope stack.
///
/// Bindings are keyed by the symbol's index.
pub struct Scope {
    /// Parent scope index, if any.
    parent: Option<usize>,
    depth: usize,
    bindings: HashMap<u32, SymbolInfo>,
    name_to_symbol: StringHashMap<Symbol>,
}

impl Scope {
    /// The parent scope index this scope was made with.
    pub closed spec fn parent_index(&self) -> Option<usize> {
        self.parent
    }

    /// The depth this scope was made with.
    pub closed spec fn level(&self) -> usize {
        self.depth
    }

    /// The bindings, keyed by symbol index.
    pub closed spec fn binding_map(&self) -> Map<u32, SymbolInfo> {
        self.bindings@
    }

    /// The names inserted into this scope, with the symbol each was last inserted with.
    pub closed spec fn name_map(&self) -> Map<Seq<char>, Symbol> {
        self.name_to_symbol@
    }

    /// Well-formedness: the bindings are finitely many, each is keyed by its own
    /// symbol's index and records this scope's depth, and every name leads to a binding.
    pub open spec fn wf(&self) -> bool {
        &&& self.binding_map().dom().finite()
        &&& forall|k: u32|
            #[trigger] self.binding_map().contains_key(k) ==> {
                &&& self.binding_map()[k].symbol.index() == k
                &&& self.binding_map()[k].depth == self.level()
            }
        &&& forall|n: Seq<char>|
            #[trigger] self.name_map().contains_key(n) ==> self.binding_map().contains_key(
                self.name_map()[n].index(),
            )
    }

    /// What `insert(name, symbol, kind)` does to a scope.
    pub open spec fn insert_step(pre: &Scope, post: &Scope, name: Seq<char>, symbol: Symbol, kind: u8) -> bool {
        &&& post.parent_index() == pre.parent_index()
        &&& post.level() == pre.level()
        &&& post.binding_map() == pre.binding_map().insert(
            symbol.index(),
            SymbolInfo { symbol, kind, depth: pre.level() },
        )
        &&& post.name_map() == pre.name_map().insert(name, symbol)
    }

    /// Create a new scope at the given depth with optional parent.
    pub fn new(depth: usize, parent: Option<usize>) -> (s: Self)
        ensures
            s.wf(),
            s.level() == depth,
            s.parent_index() == parent,
            s.binding_map() == Map::<u32, SymbolInfo>::empty(),
            s.name_map() == Map::<Seq<char>, Symbol>::empty(),
    {
        Self { parent, depth, bindings: HashMap::new(), name_to_symbol: StringHashMap::new() }
    }

    /// Insert a binding into this scope.
    pub fn insert(&mut self, name: &str, symbol: Symbol, kind: u8)
        requires
            old(self).wf(),
        ensures
            final(self).wf(),
            Scope::insert_step(old(self), final(self), name@, symbol, kind),
    {
        let info = SymbolInfo { symbol, kind, depth: self.depth };
        self.bindings.insert(symbol.as_u32(), info);
        self.name_to_symbol.insert(name.to_string(), symbol);
        assert forall|n: Seq<char>| #[trigger] self.name_map().contains_key(n) implies self.binding_map().contains_key(
            self.name_map()[n].index(),
        ) by {
            if n != name@ {
                assert(old(self).name_map().contains_key(n));
            }
        }
    }

    /// Look up a symbol by name in this scope only (no parent lookup).
    pub fn lookup_local(&self, name: &str) -> (r: Option<&SymbolInfo>)
        ensures
            r is Some <==> self.name_map().contains_key(name@) && self.binding_map().contains_key(
                self.name_map()[name@].index(),
            ),
            r matches Some(info) ==> *info == self.binding_map()[self.name_map()[name@].index()],
    {
        match self.name_to_symbol.get(name) {
            Some(sym) => self.lookup_symbol(*sym),
            None => None,
        }
    }

    /// Look up a symbol by its Symbol handle in this scope.
    pub fn lookup_symbol(&self, sym: Symbol) -> (r: Option<&SymbolInfo>)
        ensures
            r is Some <==> self.binding_map().contains_key(sym.index()),
            r matches Some(info) ==> *info == self.binding_map()[sym.index()],
    {
        self.bindings.get(&sym.as_u32())
    }

    /// Returns the depth of this scope.
    pub fn depth(&self) -> (d: usize)
        ensures
            d == self.level(),
    {
        self.depth
    }

    /// Returns the parent scope index.
    pub fn parent(&self) -> (p: Option<usize>)
        ensures
            p == self.parent_index(),
    {
        self.parent
    }

    /// Number of bindings in this scope.
    pub fn len(&self) -> (n: usize)
        ensures
            n == self.binding_map().len(),
    {
        self.bindings.len()
    }

    /// Returns true if this scope has no bindings.
    pub fn is_empty(&self) -> (b: bool)
        ensures
            b <==> self.binding_map().len() == 0,
    {
        self.bindings.len() == 0
    }

    /// All bindings of this scope, each with its symbol; the order is the hash map's.
    pub fn bindings(&self) -> (r: Vec<(Symbol, &SymbolInfo)>)
        requires
            self.wf(),
        ensures
            r@.len() == self.binding_map().len(),
            forall|i: int|
                0 <= i < r@.len() ==> {
                    &&& #[trigger] self.binding_map().contains_key(r@[i].0.index())
                    &&& *r@[i].1 == self.binding_map()[r@[i].0.index()]
                },
            forall|k: u32|
                #[trigger] self.binding_map().contains_key(k) ==> exists|i: int|
                    0 <= i < r@.len() && #[trigger] r@[i].0.index() == k,
    {
        let mut out: Vec<(Symbol, &SymbolInfo)> = Vec::new();
        let ghost all = vstd::std_specs::iter::IteratorSpec::remaining(
            &vstd::std_specs::hash::spec_hash_map_iter(&self.bindings),
        );
        for pair in it: self.bindings.iter()
            invariant
                it.seq() == all,
                out@.len() == it.index(),
                forall|i: int|
                    0 <= i < out@.len() ==> (#[trigger] out@[i]).0.index() == *all[i].0 && out@[i].1 == all[i].1,
        {
            let (k, info) = pair;
            out.push((Symbol::new(*k), info));
        }
        proof {
            assert forall|i: int| 0 <= i < out@.len() implies {
                &&& #[trigger] self.binding_map().contains_key(out@[i].0.index())
                &&& *out@[i].1 == self.binding_map()[out@[i].0.index()]
            } by {
                assert(self.bindings@.contains_key(*all[i].0));
            }
            assert forall|k: u32| #[trigger] self.binding_map().contains_key(k) implies exists|i: int|
                0 <= i < out@.len() && #[trigger] out@[i].0.index() == k by {
                assert(all.contains((&k, &self.bindings@[k])));
                let i = choose|i: int| 0 <= i < all.len() && all[i] == (&k, &self.bindings@[k]);
                assert(out@[i].0.index() == k);
            }
        }
        out
    }
}

/// The binding that a lookup of the symbol index `key` finds when it starts at
/// scope `i` and walks outward: the one in the innermost scope at or below `i`
/// that binds `key`.
pub open spec fn resolve(scopes: Seq<Scope>, i: int, key: u32) -> Option<SymbolInfo>
    decreases i + 1,
{
    if i < 0 || i >= scopes.len() {
        None
    } else if scopes[i].binding_map().contains_key(key) {
        Some(scopes[i].binding_map()[key])
    } else {
        resolve(scopes, i - 1, key)
    }
}

/// A scope manager that maintains a stack of scopes.
pub struct ScopeManager {
    scopes: Vec<Scope>,
}

impl ScopeManager {
    /// The stack of scopes, global scope first.
    pub closed spec fn scope_seq(&self) -> Seq<Scope> {
        self.scopes@
    }

    /// Well-formedness: the global scope is always there, and the scope at
    /// position `i` has depth `i` and, unless global, the parent `i - 1`.
    pub open spec fn wf(&self) -> bool {
        &&& self.scope_seq().len() >= 1
        &&& forall|i: int|
            0 <= i < self.scope_seq().len() ==> {
                &&& (#[trigger] self.scope_seq()[i]).wf()
                &&& self.scope_seq()[i].level() == i
                &&& self.scope_seq()[i].parent_index() == if i == 0 {
                    None::<usize>
                } else {
                    Some((i - 1) as usize)
                }
            }
    }

    /// What a lookup of `name` finds, given the interner that `name` is resolved with.
    pub open spec fn lookup_spec(&self, name: Seq<char>, interner: &StringInterner) -> Option<SymbolInfo> {
        if interner.table().contains_key(name) {
            resolve(self.scope_seq(), self.scope_seq().len() - 1, interner.table()[name])
        } else {
            None
        }
    }

    /// What `define(name, kind, ..)` does to the scopes, when interning gave `sym`:
    /// only the innermost scope changes, by inserting the binding.
    pub open spec fn define_step(pre: &ScopeManager, post: &ScopeManager, name: Seq<char>, sym: Symbol, kind: u8) -> bool {
        let n = pre.scope_seq().len();
        &&& post.scope_seq().len() == n
        &&& forall|i: int| 0 <= i < n - 1 ==> #[trigger] post.scope_seq()[i] == pre.scope_seq()[i]
        &&& Scope::insert_step(&pre.scope_seq()[n - 1], &post.scope_seq()[n - 1], name, sym, kind)
    }

    /// Create a new scope manager with a global scope.
    pub fn new() -> (m: Self)
        ensures
            m.wf(),
            m.scope_seq().len() == 1,
            m.scope_seq()[0].binding_map() == Map::<u32, SymbolInfo>::empty(),
            m.scope_seq()[0].name_map() == Map::<Seq<char>, Symbol>::empty(),
    {
        let mut scopes = Vec::new();
        scopes.push(Scope::new(0, None));
        Self { scopes }
    }

    /// Push a new scope onto the stack.
    pub fn push_scope(&mut self) -> (d: usize)
        requires
            old(self).wf(),
        ensures
            final(self).wf(),
            d == old(self).scope_seq().len(),
            final(self).scope_seq().len() == old(self).scope_seq().len() + 1,
            final(self).scope_seq().drop_last() == old(self).scope_seq(),
            final(self).scope_seq().last().binding_map() == Map::<u32, SymbolInfo>::empty(),
            final(self).scope_seq().last().name_map() == Map::<Seq<char>, Symbol>::empty(),
    {
        let depth = self.scopes.len();
        let parent = Some(depth - 1);
        self.scopes.push(Scope::new(depth, parent));
        depth
    }

    /// Pop the top scope. Returns false if at global scope.
    pub fn pop_scope(&mut self) -> (popped: bool)
        requires
            old(self).wf(),
        ensures
            final(self).wf(),
            popped <==> old(self).scope_seq().len() > 1,
            popped ==> final(self).scope_seq() == old(self).scope_seq().drop_last(),
            !popped ==> final(self).scope_seq() == old(self).scope_seq(),
    {
        if self.scopes.len() <= 1 {
            return false;
        }
        self.scopes.pop();
        true
    }

    /// Insert a binding into the current (top) scope.
    pub fn define(&mut self, name: &str, kind: u8, interner: &mut StringInterner) -> (sym: Symbol)
        requires
            old(self).wf(),
            old(interner).wf(),
        ensures
            final(self).wf(),
            final(interner).wf(),
            StringInterner::intern_step(old(interner), final(interner), name@, sym),
            ScopeManager::define_step(old(self), final(self), name@, sym, kind),
    {
        let sym = interner.intern(name);
        let n = self.scopes.len();
        if n > 0 {
            self.scopes[n - 1].insert(name, sym, kind);
        }
        sym
    }

    /// Look up a name starting from the current scope, walking up parents.
    pub fn lookup(&self, name: &str, interner: &StringInterner) -> (r: Option<&SymbolInfo>)
        requires
            self.wf(),
        ensures
            r is Some <==> self.lookup_spec(name@, interner) is Some,
            r matches Some(info) ==> *info == self.lookup_spec(name@, interner).unwrap(),
    {
        let sym = interner.get_symbol(name)?;
        let mut scope_idx = self.scopes.len().checked_sub(1)?;
        loop
            invariant
                self.wf(),
                interner.table().contains_key(name@),
                sym.index() == interner.table()[name@],
                scope_idx < self.scope_seq().len(),
                self.lookup_spec(name@, interner) == resolve(self.scope_seq(), scope_idx as int, sym.index()),
            decreases scope_idx,
        {
            let scope = &self.scopes[scope_idx];
            if let Some(info) = scope.lookup_symbol(sym) {
                return Some(info);
            }
            match scope.parent() {
                Some(parent) => scope_idx = parent,
                None => {
                    assert(resolve(self.scope_seq(), -1, sym.index()) is None);
                    return None;
                },
            }
        }
    }

    /// Returns the current scope depth.
    pub fn current_depth(&self) -> (d: usize)
        ensures
            d == if self.scope_seq().len() == 0 { 0 } else { self.scope_seq().len() - 1 },
    {
        self.scopes.len().saturating_sub(1)
    }

    /// Number of scopes.
    pub fn scope_count(&self) -> (n: usize)
        ensures
            n == self.scope_seq().len(),
    {
        self.scopes.len()
    }
}

impl Default for ScopeManager {
    fn default() -> (m: Self)
        ensures
            m.wf(),
            m.scope_seq().len() == 1,
            m.scope_seq()[0].binding_map() == Map::<u32, SymbolInfo>::empty(),
            m.scope_seq()[0].name_map() == Map::<Seq<char>, Symbol>::empty(),
    {
        Self::new()
    }
}

/// A lookup walking outward from scope `i` sees only the scopes at or below `i`:
/// two stacks that agree there resolve every symbol index alike.
pub proof fn lemma_resolve_depends_on_outer_scopes(s1: Seq<Scope>, s2: Seq<Scope>, i: int, key: u32)
    requires
        i < s1.len(),
        i < s2.len(),
        forall|j: int| 0 <= j <= i ==> #[trigger] s1[j] == s2[j],
    ensures
        resolve(s1, i, key) == resolve(s2, i, key),
    decreases i + 1,
{
    if i >= 0 {
        lemma_resolve_depends_on_outer_scopes(s1, s2, i - 1, key);
    }
}

/// What a walk from scope `i` finds is a binding for that very symbol index, made
/// in a scope at or below `i`, whose depth it records.
pub proof fn lemma_resolve_found_binding(m: &ScopeManager, i: int, key: u32)
    requires
        m.wf(),
        i < m.scope_seq().len(),
    ensures
        resolve(m.scope_seq(), i, key) matches Some(info) ==> {
            &&& info.symbol.index() == key
            &&& info.depth <= i
            &&& m.scope_seq()[info.depth as int].binding_map().contains_key(key)
            &&& m.scope_seq()[info.depth as int].binding_map()[key] == info
        },
    decreases i + 1,
{
    if i >= 0 {
        assert(m.scope_seq()[i].wf());
        lemma_resolve_found_binding(m, i - 1, key);
    }
}

/// A scope that does not bind a symbol index is transparent: a walk from scope
/// `i` finds exactly what a walk from scope `i - 1` (its parent) finds. A scope
/// that binds it answers with its own binding.
pub proof fn lemma_resolve_transparent(s: Seq<Scope>, i: int, key: u32)
    requires
        0 <= i < s.len(),
    ensures
        s[i].binding_map().contains_key(key) ==> resolve(s, i, key) == Some(s[i].binding_map()[key]),
        !s[i].binding_map().contains_key(key) ==> resolve(s, i, key) == resolve(s, i - 1, key),
{
}

/// Pushing a scope hides nothing: right after `push_scope`, every name resolves
/// as it did before, through the same interner.
pub proof fn lemma_push_keeps_lookups(pre: &ScopeManager, post: &ScopeManager, interner: &StringInterner, name: Seq<char>)
    requires
        pre.wf(),
        post.scope_seq().len() == pre.scope_seq().len() + 1,
        post.scope_seq().drop_last() == pre.scope_seq(),
        post.scope_seq().last().binding_map() == Map::<u32, SymbolInfo>::empty(),
    ensures
        post.lookup_spec(name, interner) == pre.lookup_spec(name, interner),
{
    if interner.table().contains_key(name) {
        let key = interner.table()[name];
        let n = pre.scope_seq().len() as int;
        assert(post.scope_seq()[n] == post.scope_seq().last());
        assert forall|j: int| 0 <= j <= n - 1 implies #[trigger] post.scope_seq()[j] == pre.scope_seq()[j] by {
            assert(post.scope_seq()[j] == post.scope_seq().drop_last()[j]);
        }
        lemma_resolve_depends_on_outer_scopes(pre.scope_seq(), post.scope_seq(), n - 1, key);
    }
}

/// A lookup right after `define(name, kind, ..)` finds the new binding: the symbol
/// interning gave, the kind, and the depth of the innermost scope. An inner
/// definition thus shadows any outer one.
pub proof fn lemma_define_then_lookup(
    pre: &ScopeManager,
    post: &ScopeManager,
    tpre: &StringInterner,
    tpost: &StringInterner,
    name: Seq<char>,
    sym: Symbol,
    kind: u8,
)
    requires
        pre.wf(),
        StringInterner::intern_step(tpre, tpost, name, sym),
        ScopeManager::define_step(pre, post, name, sym, kind),
    ensures
        post.lookup_spec(name, tpost) == Some(
            SymbolInfo { symbol: sym, kind, depth: (pre.scope_seq().len() - 1) as usize },
        ),
{
    crate::intern::lemma_intern_records_symbol(tpre, tpost, name, sym);
    let n = pre.scope_seq().len();
    assert(pre.scope_seq()[n - 1].level() == n - 1);
}

/// A definition touches the innermost scope only: the scopes around it stay as
/// they were, so popping that scope later restores them exactly.
pub proof fn lemma_define_keeps_outer_scopes(
    pre: &ScopeManager,
    post: &ScopeManager,
    name: Seq<char>,
    sym: Symbol,
    kind: u8,
)
    requires
        pre.wf(),
        ScopeManager::define_step(pre, post, name, sym, kind),
    ensures
        post.scope_seq().drop_last() == pre.scope_seq().drop_last(),
{
    assert(post.scope_seq().drop_last() =~= pre.scope_seq().drop_last());
}

} // verus!
