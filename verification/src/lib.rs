//! Lexically scoped symbol tables for compilers and interpreters, with string
//! interning and hash consing.

pub mod hash_cons;
pub mod intern;
pub mod scope;
pub mod symbol;
pub mod table;

use vstd::hash_map::StringHashMap;
use vstd::prelude::*;

verus! {

/// What a name is declared as.
#[derive(Debug, Clone, PartialEq)]
pub enum SymbolKind {
    Variable { mutable: bool },
    Function { params: Vec<String> },
    Struct { fields: Vec<String> },
    Enum { variants: Vec<String> },
    Module,
    TypeAlias,
}

/// A declared name with its metadata.
#[derive(Debug, Clone)]
pub struct Symbol {
    pub name: String,
    pub kind: SymbolKind,
    pub scope_id: usize,
    pub ty: Option<String>,
    pub exported: bool,
}

/// One scope of the tree: its id, its parent's id, and the symbols declared in it.
///
/// `symbols` holds the symbols in declaration order; `index` maps each declared
/// name to the position of its symbol in `symbols`.
pub struct Scope {
    pub id: usize,
    pub parent: Option<usize>,
    pub symbols: Vec<Symbol>,
    pub index: StringHashMap<usize>,
}

impl Scope {
    /// The declarations of this scope: declared name to symbol.
    pub open spec fn bindings(&self) -> Map<Seq<char>, Symbol> {
        Map::new(|k: Seq<char>| self.index@.contains_key(k), |k: Seq<char>| self.symbols@[self.index@[k] as int])
    }

    /// Well-formedness: the index names each position of `symbols` exactly once.
    pub open spec fn wf(&self) -> bool {
        &&& self.index@.dom().finite()
        &&& self.index@.len() == self.symbols@.len()
        &&& forall|k: Seq<char>| #[trigger] self.index@.contains_key(k) ==> (self.index@[k] as int) < self.symbols@.len()
        &&& forall|k1: Seq<char>, k2: Seq<char>|
            #[trigger] self.index@.contains_key(k1) && #[trigger] self.index@.contains_key(k2) && k1 != k2
                ==> self.index@[k1] != self.index@[k2]
    }
}

/// The scope in which a lookup of `name` that starts at scope `sid` finds it,
/// walking from each scope to its parent.
pub open spec fn home_scope(scopes: Seq<Scope>, sid: int, name: Seq<char>) -> Option<int>
    decreases sid + 1,
{
    if sid < 0 || sid >= scopes.len() {
        None
    } else if scopes[sid].bindings().contains_key(name) {
        Some(sid)
    } else {
        match scopes[sid].parent {
            Some(p) => if p < sid {
                home_scope(scopes, p as int, name)
            } else {
                None
            },
            None => None,
        }
    }
}

/// The number of parent steps from scope `sid` up to the root.
pub open spec fn depth_of(scopes: Seq<Scope>, sid: int) -> nat
    decreases sid + 1,
{
    if sid < 0 || sid >= scopes.len() {
        0
    } else {
        match scopes[sid].parent {
            Some(p) => if p < sid {
                1 + depth_of(scopes, p as int)
            } else {
                0
            },
            None => 0,
        }
    }
}

/// The symbols of the first `n` scopes, scope by scope, each in declaration order.
pub open spec fn symbols_of(scopes: Seq<Scope>, n: int) -> Seq<Symbol>
    decreases n,
{
    if n <= 0 {
        Seq::empty()
    } else {
        symbols_of(scopes, n - 1) + scopes[n - 1].symbols@
    }
}

/// The text of the error that `define` reports for a name already declared in
/// the current scope.
pub open spec fn already_defined_message(name: Seq<char>) -> Seq<char> {
    "Symbol '"@ + name + "' already defined in this scope"@
}

/// A tree of scopes with a cursor at the current scope.
pub struct SymbolTable {
    scopes: Vec<Scope>,
    current: usize,
    counter: usize,
}

impl SymbolTable {
    /// All scopes made so far, indexed by id.
    pub closed spec fn scope_seq(&self) -> Seq<Scope> {
        self.scopes@
    }

    /// The id of the current scope.
    pub closed spec fn cur(&self) -> usize {
        self.current
    }

    /// The id the next scope will get.
    pub closed spec fn next_id(&self) -> usize {
        self.counter
    }

    /// Well-formedness: scope `i` has id `i`, the root (id 0) alone has no
    /// parent, every other scope's parent was made before it, each scope is well
    /// formed, the current scope exists, and the next id is the number of scopes.
    pub open spec fn wf(&self) -> bool {
        let s = self.scope_seq();
        &&& s.len() >= 1
        &&& self.next_id() == s.len()
        &&& self.cur() < s.len()
        &&& forall|i: int|
            0 <= i < s.len() ==> {
                &&& (#[trigger] s[i]).wf()
                &&& s[i].id == i
                &&& (s[i].parent is None <==> i == 0)
                &&& (s[i].parent matches Some(p) ==> p < i)
            }
    }

    /// What a lookup of `name` from the current scope finds.
    pub open spec fn lookup_spec(&self, name: Seq<char>) -> Option<Symbol> {
        match home_scope(self.scope_seq(), self.cur() as int, name) {
            Some(h) => Some(self.scope_seq()[h].bindings()[name]),
            None => None,
        }
    }

    /// Create with a global scope (id 0).
    pub fn new() -> (t: Self)
        ensures
            t.wf(),
            t.scope_seq().len() == 1,
            t.scope_seq()[0].bindings() == Map::<Seq<char>, Symbol>::empty(),
            t.cur() == 0,
    {
        let global = Scope { id: 0, parent: None, symbols: Vec::new(), index: StringHashMap::new() };
        let mut scopes = Vec::new();
        scopes.push(global);
        Self { scopes, current: 0, counter: 1 }
    }
    /// `sym` is the symbol that `define` makes for `name` of kind `kind` in scope `sid`.
    pub open spec fn is_new_symbol(sym: Symbol, name: Seq<char>, kind: SymbolKind, sid: int) -> bool {
        &&& sym.name@ == name
        &&& sym.kind == kind
        &&& sym.scope_id == sid
        &&& sym.ty is None
        &&& !sym.exported
    }

    /// What `define(name, kind)` does: `post` is the table after the call on `pre`,
    /// and `r` its result. A name already declared in the current scope is refused
    /// and nothing changes; otherwise the current scope gains the new symbol, at the
    /// end of its declaration order, and nothing else changes.
    pub open spec fn define_step(
        pre: &SymbolTable,
        post: &SymbolTable,
        name: Seq<char>,
        kind: SymbolKind,
        r: Result<(), String>,
    ) -> bool {
        let c = pre.cur() as int;
        let pre_scope = pre.scope_seq()[c];
        let post_scope = post.scope_seq()[c];
        if pre_scope.bindings().contains_key(name) {
            &&& r matches Err(msg) && msg@ == already_defined_message(name)
            &&& post == pre
        } else {
            &&& r is Ok
            &&& post.cur() == pre.cur()
            &&& post.next_id() == pre.next_id()
            &&& post.scope_seq().len() == pre.scope_seq().len()
            &&& forall|i: int|
                0 <= i < pre.scope_seq().len() && i != c ==> #[trigger] post.scope_seq()[i] == pre.scope_seq()[i]
            &&& post_scope.id == pre_scope.id
            &&& post_scope.parent == pre_scope.parent
            &&& SymbolTable::is_new_symbol(post_scope.bindings()[name], name, kind, c)
            &&& post_scope.bindings() == pre_scope.bindings().insert(name, post_scope.bindings()[name])
            &&& post_scope.symbols@ == pre_scope.symbols@.push(post_scope.bindings()[name])
        }
    }

    /// Declare `name` in the current scope; refused if the current scope already
    /// declares it.
    pub fn define(&mut self, name: &str, kind: SymbolKind) -> (r: Result<(), String>)
        requires
            old(self).wf(),
        ensures
            final(self).wf(),
            SymbolTable::define_step(old(self), final(self), name@, kind, r),
    {
        let cur = self.current;
        if self.scopes[cur].index.contains_key(name) {
            let mut msg = String::from_str("Symbol '");
            msg.append(name);
            msg.append("' already defined in this scope");
            proof {
                reveal_strlit("Symbol '");
                reveal_strlit("' already defined in this scope");
            }
            return Err(msg);
        }
        let ghost pre = *self;
        let pos = self.scopes[cur].symbols.len();
        let sym = Symbol { name: name.to_string(), kind, scope_id: cur, ty: None, exported: false };
        self.scopes[cur].symbols.push(sym);
        self.scopes[cur].index.insert(name.to_string(), pos);
        proof {
            let ps = pre.scope_seq()[cur as int];
            let qs = self.scope_seq()[cur as int];
            assert(qs.bindings() =~= ps.bindings().insert(name@, qs.bindings()[name@]));
            assert forall|i: int| 0 <= i < self.scope_seq().len() implies {
                &&& (#[trigger] self.scope_seq()[i]).wf()
                &&& self.scope_seq()[i].id == i
                &&& (self.scope_seq()[i].parent is None <==> i == 0)
                &&& (self.scope_seq()[i].parent matches Some(p) ==> p < i)
            } by {
                if i == cur as int {
                    assert forall|k1: Seq<char>, k2: Seq<char>|
                        #[trigger] qs.index@.contains_key(k1) && #[trigger] qs.index@.contains_key(k2) && k1 != k2
                        implies qs.index@[k1] != qs.index@[k2] by {
                        if k1 != name@ && k2 != name@ {
                            assert(ps.index@.contains_key(k1));
                            assert(ps.index@.contains_key(k2));
                        } else if k1 == name@ {
                            assert(ps.index@.contains_key(k2));
                        } else {
                            assert(ps.index@.contains_key(k1));
                        }
                    }
                    assert forall|k: Seq<char>| #[trigger] qs.index@.contains_key(k) implies (qs.index@[k] as int) < qs.symbols@.len() by {
                        if k != name@ {
                            assert(ps.index@.contains_key(k));
                        }
                    }
                }
            }
        }
        Ok(())
    }

    /// Where a lookup of `name` from the current scope finds it: the scope and the
    /// position of the symbol in that scope's declaration order.
    fn locate(&self, name: &str) -> (r: Option<(usize, usize)>)
        requires
            self.wf(),
        ensures
            r is Some <==> home_scope(self.scope_seq(), self.cur() as int, name@) is Some,
            r matches Some((sid, j)) ==> {
                &&& (sid as int) < self.scope_seq().len()
                &&& home_scope(self.scope_seq(), self.cur() as int, name@) == Some(sid as int)
                &&& self.scope_seq()[sid as int].index@.contains_key(name@)
                &&& self.scope_seq()[sid as int].index@[name@] == j
                &&& (j as int) < self.scope_seq()[sid as int].symbols@.len()
            },
    {
        let mut sid = self.current;
        loop
            invariant
                self.wf(),
                sid < self.scope_seq().len(),
                home_scope(self.scope_seq(), self.cur() as int, name@) == home_scope(
                    self.scope_seq(),
                    sid as int,
                    name@,
                ),
            decreases sid,
        {
            assert(self.scope_seq()[sid as int].wf());
            match self.scopes[sid].index.get(name) {
                Some(j) => {
                    return Some((sid, *j));
                },
                None => {},
            }
            match self.scopes[sid].parent {
                Some(p) => {
                    sid = p;
                },
                None => {
                    return None;
                },
            }
        }
    }

    /// Resolve `name` from the current scope, walking up the parents.
    pub fn lookup(&self, name: &str) -> (r: Option<&Symbol>)
        requires
            self.wf(),
        ensures
            r is Some <==> self.lookup_spec(name@) is Some,
            r matches Some(sym) ==> *sym == self.lookup_spec(name@).unwrap(),
    {
        match self.locate(name) {
            Some((sid, j)) => Some(&self.scopes[sid].symbols[j]),
            None => None,
        }
    }

    /// Resolve `name` from the current scope for changing the symbol found.
    pub fn lookup_mut(&mut self, name: &str) -> (r: Option<&mut Symbol>)
        requires
            old(self).wf(),
        ensures
            final(self).wf(),
            r is Some <==> old(self).lookup_spec(name@) is Some,
            r is None ==> *final(self) == *old(self),
            r matches Some(m) ==> {
                let h = home_scope(old(self).scope_seq(), old(self).cur() as int, name@).unwrap();
                let pre_scope = old(self).scope_seq()[h];
                let post_scope = final(self).scope_seq()[h];
                &&& *m == old(self).lookup_spec(name@).unwrap()
                &&& final(self).cur() == old(self).cur()
                &&& final(self).next_id() == old(self).next_id()
                &&& final(self).scope_seq().len() == old(self).scope_seq().len()
                &&& forall|i: int|
                    0 <= i < old(self).scope_seq().len() && i != h ==> #[trigger] final(self).scope_seq()[i]
                        == old(self).scope_seq()[i]
                &&& post_scope.id == pre_scope.id
                &&& post_scope.parent == pre_scope.parent
                &&& post_scope.index@ == pre_scope.index@
                &&& post_scope.symbols@ == pre_scope.symbols@.update(pre_scope.index@[name@] as int, *final(m))
                &&& post_scope.bindings() == pre_scope.bindings().insert(name@, *final(m))
            },
    {
        match self.locate(name) {
            Some((sid, j)) => Some(&mut self.scopes[sid].symbols[j]),
            None => None,
        }
    }

    /// Every symbol of every scope: scope by scope in id order, each scope's
    /// symbols in declaration order.
    pub fn all_symbols(&self) -> (r: Vec<&Symbol>)
        ensures
            r@.len() == symbols_of(self.scope_seq(), self.scope_seq().len() as int).len(),
            forall|k: int|
                0 <= k < r@.len() ==> *r@[k] == #[trigger] symbols_of(self.scope_seq(), self.scope_seq().len() as int)[k],
    {
        let mut out: Vec<&Symbol> = Vec::new();
        let mut i: usize = 0;
        while i < self.scopes.len()
            invariant
                i <= self.scope_seq().len(),
                out@.len() == symbols_of(self.scope_seq(), i as int).len(),
                forall|k: int| 0 <= k < out@.len() ==> *out@[k] == #[trigger] symbols_of(self.scope_seq(), i as int)[k],
            decreases self.scope_seq().len() - i,
        {
            let scope = &self.scopes[i];
            let ghost before = symbols_of(self.scope_seq(), i as int);
            let mut j: usize = 0;
            while j < scope.symbols.len()
                invariant
                    scope == self.scope_seq()[i as int],
                    j <= scope.symbols@.len(),
                    out@.len() == before.len() + j,
                    forall|k: int| 0 <= k < before.len() ==> *out@[k] == #[trigger] before[k],
                    forall|k: int| 0 <= k < j ==> *out@[before.len() + k] == #[trigger] scope.symbols@[k],
                decreases scope.symbols@.len() - j,
            {
                out.push(&scope.symbols[j]);
                j += 1;
            }
            proof {
                let after = symbols_of(self.scope_seq(), i + 1);
                assert(after == before + scope.symbols@);
                assert forall|k: int| 0 <= k < out@.len() implies *out@[k] == #[trigger] after[k] by {
                    if k < before.len() {
                        assert(*out@[k] == before[k]);
                    } else {
                        assert(*out@[before.len() + (k - before.len())] == scope.symbols@[k - before.len()]);
                    }
                }
            }
            i += 1;
        }
        out
    }

    /// Push a child of the current scope and make it current; returns its id.
    pub fn enter_scope(&mut self) -> (id: usize)
        requires
            old(self).wf(),
            old(self).next_id() < usize::MAX,
        ensures
            final(self).wf(),
            id == old(self).next_id(),
            final(self).next_id() == old(self).next_id() + 1,
            final(self).cur() == id,
            final(self).scope_seq().len() == old(self).scope_seq().len() + 1,
            final(self).scope_seq().drop_last() == old(self).scope_seq(),
            final(self).scope_seq().last().id == id,
            final(self).scope_seq().last().parent == Some(old(self).cur()),
            final(self).scope_seq().last().bindings() == Map::<Seq<char>, Symbol>::empty(),
            final(self).scope_seq().last().symbols@ == Seq::<Symbol>::empty(),
    {
        let id = self.counter;
        self.counter += 1;
        self.scopes.push(Scope { id, parent: Some(self.current), symbols: Vec::new(), index: StringHashMap::new() });
        self.current = id;
        id
    }

    /// Move to the parent of the current scope; returns the parent's id, or `None`
    /// (staying put) at the root.
    pub fn leave_scope(&mut self) -> (parent: Option<usize>)
        requires
            old(self).wf(),
        ensures
            final(self).wf(),
            parent == old(self).scope_seq()[old(self).cur() as int].parent,
            final(self).cur() == match parent {
                Some(p) => p,
                None => old(self).cur(),
            },
            final(self).scope_seq() == old(self).scope_seq(),
            final(self).next_id() == old(self).next_id(),
    {
        let parent = self.scopes[self.current].parent;
        if let Some(p) = parent {
            self.current = p;
        }
        parent
    }

    /// The id of the current scope.
    pub fn current_scope(&self) -> (id: usize)
        ensures
            id == self.cur(),
    {
        self.current
    }

    /// The number of parent steps from the current scope up to the root.
    pub fn scope_depth(&self) -> (depth: usize)
        requires
            self.wf(),
        ensures
            depth == depth_of(self.scope_seq(), self.cur() as int),
    {
        let mut depth: usize = 0;
        let mut id = self.current;
        proof {
            lemma_depth_at_most_id(self, self.cur() as int);
        }
        loop
            invariant_except_break
                self.wf(),
                id < self.scope_seq().len(),
                depth + depth_of(self.scope_seq(), id as int) == depth_of(self.scope_seq(), self.cur() as int),
                depth_of(self.scope_seq(), self.cur() as int) <= self.cur(),
            ensures
                depth == depth_of(self.scope_seq(), self.cur() as int),
            decreases id,
        {
            match self.scopes[id].parent {
                Some(p) => {
                    depth += 1;
                    id = p;
                },
                None => break,
            }
        }
        depth
    }
}

impl Default for SymbolTable {
    fn default() -> (t: Self)
        ensures
            t.wf(),
            t.scope_seq().len() == 1,
            t.scope_seq()[0].bindings() == Map::<Seq<char>, Symbol>::empty(),
            t.cur() == 0,
    {
        Self::new()
    }
}

/// The depth of a scope is at most its id.
proof fn lemma_depth_at_most_id(t: &SymbolTable, sid: int)
    requires
        t.wf(),
        0 <= sid < t.scope_seq().len(),
    ensures
        depth_of(t.scope_seq(), sid) <= sid,
    decreases sid,
{
    if let Some(p) = t.scope_seq()[sid].parent {
        lemma_depth_at_most_id(t, p as int);
    }
}

/// A name declared in a scope is found by a lookup from that scope: `define`
/// followed by `lookup` gives the new symbol, even where an ancestor scope
/// declares the same name (the inner declaration shadows it).
pub proof fn lemma_define_then_lookup(
    pre: &SymbolTable,
    post: &SymbolTable,
    name: Seq<char>,
    kind: SymbolKind,
    r: Result<(), String>,
)
    requires
        pre.wf(),
        SymbolTable::define_step(pre, post, name, kind, r),
        r is Ok,
    ensures
        post.lookup_spec(name) matches Some(sym) && SymbolTable::is_new_symbol(sym, name, kind, pre.cur() as int),
{
}

/// Declaring a name twice in the same scope is refused the second time, with the
/// table left as it was.
pub proof fn lemma_define_twice_refused(
    a: &SymbolTable,
    b: &SymbolTable,
    c: &SymbolTable,
    name: Seq<char>,
    k1: SymbolKind,
    k2: SymbolKind,
    r1: Result<(), String>,
    r2: Result<(), String>,
)
    requires
        a.wf(),
        SymbolTable::define_step(a, b, name, k1, r1),
        SymbolTable::define_step(b, c, name, k2, r2),
    ensures
        r2 matches Err(msg) && msg@ == already_defined_message(name),
        *c == *b,
{
}

/// A lookup from scope `sid` sees only `sid` and its ancestors: two scope
/// sequences that agree on the scopes with ids up to `sid` resolve every name alike.
pub proof fn lemma_lookup_sees_only_ancestors(s1: Seq<Scope>, s2: Seq<Scope>, sid: int, name: Seq<char>)
    requires
        sid < s1.len(),
        sid < s2.len(),
        forall|j: int| 0 <= j <= sid ==> #[trigger] s1[j] == s2[j],
    ensures
        home_scope(s1, sid, name) == home_scope(s2, sid, name),
        depth_of(s1, sid) == depth_of(s2, sid),
    decreases sid + 1,
{
    if sid >= 0 {
        if let Some(p) = s1[sid].parent {
            if p < sid {
                lemma_lookup_sees_only_ancestors(s1, s2, p as int, name);
            }
        }
    }
}

/// Leaving restores lookups: if the current scope and all scopes made before
/// `before` are as they were, every name resolves as it did in `before`. Entering a
/// scope, declaring names there, and leaving it again is such a change.
pub proof fn lemma_leave_restores_lookup(before: &SymbolTable, after: &SymbolTable, name: Seq<char>)
    requires
        before.wf(),
        after.wf(),
        after.cur() == before.cur(),
        before.scope_seq().len() <= after.scope_seq().len(),
        forall|j: int| 0 <= j < before.scope_seq().len() ==> #[trigger] after.scope_seq()[j] == before.scope_seq()[j],
    ensures
        after.lookup_spec(name) == before.lookup_spec(name),
{
    lemma_lookup_sees_only_ancestors(before.scope_seq(), after.scope_seq(), before.cur() as int, name);
    if let Some(h) = home_scope(before.scope_seq(), before.cur() as int, name) {
        lemma_home_scope_in_range(before.scope_seq(), before.cur() as int, name);
        assert(after.scope_seq()[h] == before.scope_seq()[h]);
    }
}

/// Where a lookup finds a name is a scope that exists, at or above the start.
proof fn lemma_home_scope_in_range(s: Seq<Scope>, sid: int, name: Seq<char>)
    ensures
        home_scope(s, sid, name) matches Some(h) ==> 0 <= h <= sid && h < s.len() && s[h].bindings().contains_key(name),
    decreases sid + 1,
{
    if 0 <= sid < s.len() {
        if let Some(p) = s[sid].parent {
            if p < sid {
                lemma_home_scope_in_range(s, p as int, name);
            }
        }
    }
}

/// Entering a scope, declaring a name in it, and leaving it: leaving returns the
/// scope that was current before, and every name then resolves as before.
pub proof fn lemma_enter_define_leave(
    s0: &SymbolTable,
    s1: &SymbolTable,
    s2: &SymbolTable,
    s3: &SymbolTable,
    id: usize,
    inner: Seq<char>,
    kind: SymbolKind,
    r: Result<(), String>,
    parent: Option<usize>,
    name: Seq<char>,
)
    requires
        s0.wf(),
        s1.wf(),
        s2.wf(),
        s3.wf(),
        // `enter_scope` took s0 to s1, returning id
        id == s0.next_id(),
        s1.cur() == id,
        s1.scope_seq().drop_last() == s0.scope_seq(),
        s1.scope_seq().len() == s0.scope_seq().len() + 1,
        s1.scope_seq().last().parent == Some(s0.cur()),
        // `define(inner, kind)` took s1 to s2, returning r
        SymbolTable::define_step(s1, s2, inner, kind, r),
        // `leave_scope` took s2 to s3, returning parent
        parent == s2.scope_seq()[s2.cur() as int].parent,
        s3.cur() == match parent {
            Some(p) => p,
            None => s2.cur(),
        },
        s3.scope_seq() == s2.scope_seq(),
    ensures
        parent == Some(s0.cur()),
        s3.cur() == s0.cur(),
        s3.lookup_spec(name) == s0.lookup_spec(name),
{
    assert forall|j: int| 0 <= j < s0.scope_seq().len() implies #[trigger] s3.scope_seq()[j] == s0.scope_seq()[j] by {
        assert(s1.scope_seq()[j] == s1.scope_seq().drop_last()[j]);
    }
    lemma_leave_restores_lookup(s0, s3, name);
}

/// Entering a scope makes the depth one more than before.
pub proof fn lemma_enter_deepens(s0: &SymbolTable, s1: &SymbolTable)
    requires
        s0.wf(),
        s1.wf(),
        s1.cur() == s0.next_id(),
        s1.scope_seq().drop_last() == s0.scope_seq(),
        s1.scope_seq().len() == s0.scope_seq().len() + 1,
        s1.scope_seq().last().parent == Some(s0.cur()),
    ensures
        depth_of(s1.scope_seq(), s1.cur() as int) == depth_of(s0.scope_seq(), s0.cur() as int) + 1,
{
    assert forall|j: int| 0 <= j <= s0.cur() implies #[trigger] s1.scope_seq()[j] == s0.scope_seq()[j] by {
        assert(s1.scope_seq()[j] == s1.scope_seq().drop_last()[j]);
    }
    lemma_lookup_sees_only_ancestors(s0.scope_seq(), s1.scope_seq(), s0.cur() as int, Seq::empty());
}

/// Leaving a scope other than the root makes the depth one less than before.
pub proof fn lemma_leave_shallows(t: &SymbolTable, p: usize)
    requires
        t.wf(),
        t.scope_seq()[t.cur() as int].parent == Some(p),
    ensures
        depth_of(t.scope_seq(), p as int) + 1 == depth_of(t.scope_seq(), t.cur() as int),
{
}

/// The depth is zero exactly at the root, which is exactly where `leave_scope`
/// finds no parent.
pub proof fn lemma_depth_zero_iff_root(t: &SymbolTable)
    requires
        t.wf(),
    ensures
        (depth_of(t.scope_seq(), t.cur() as int) == 0) <==> t.cur() == 0,
        (t.scope_seq()[t.cur() as int].parent is None) <==> t.cur() == 0,
{
}

/// A successful definition changes no other name's lookup.
pub proof fn lemma_define_keeps_other_names(
    pre: &SymbolTable,
    post: &SymbolTable,
    name: Seq<char>,
    kind: SymbolKind,
    r: Result<(), String>,
    other: Seq<char>,
)
    requires
        pre.wf(),
        post.wf(),
        SymbolTable::define_step(pre, post, name, kind, r),
        other != name,
    ensures
        post.lookup_spec(other) == pre.lookup_spec(other),
{
    if r is Ok {
        lemma_home_after_new_binding(pre.scope_seq(), post.scope_seq(), pre.cur() as int, pre.cur() as int, name, other);
        lemma_home_scope_in_range(pre.scope_seq(), pre.cur() as int, other);
    }
}

/// Adding a binding for `name` to scope `c` leaves every walk for another name
/// stopping where it did.
proof fn lemma_home_after_new_binding(
    s1: Seq<Scope>,
    s2: Seq<Scope>,
    sid: int,
    c: int,
    name: Seq<char>,
    query: Seq<char>,
)
    requires
        s1.len() == s2.len(),
        0 <= c < s1.len(),
        query != name,
        forall|i: int| 0 <= i < s1.len() && i != c ==> #[trigger] s2[i] == s1[i],
        s2[c].parent == s1[c].parent,
        s2[c].bindings() == s1[c].bindings().insert(name, s2[c].bindings()[name]),
    ensures
        home_scope(s2, sid, query) == home_scope(s1, sid, query),
    decreases sid + 1,
{
    if 0 <= sid < s1.len() {
        if sid == c {
            assert(s2[c].bindings().contains_key(query) == s1[c].bindings().contains_key(query));
        }
        if let Some(p) = s1[sid].parent {
            if p < sid {
                lemma_home_after_new_binding(s1, s2, p as int, c, name, query);
            }
        }
    }
}

/// A scope that does not declare `name` is transparent: a lookup starting there
/// finds exactly what a lookup starting at its parent finds. A scope that does
/// declare it answers with its own declaration.
pub proof fn lemma_scope_transparent(t: &SymbolTable, sid: int, name: Seq<char>)
    requires
        t.wf(),
        0 <= sid < t.scope_seq().len(),
    ensures
        t.scope_seq()[sid].bindings().contains_key(name) ==> home_scope(t.scope_seq(), sid, name) == Some(sid),
        !t.scope_seq()[sid].bindings().contains_key(name) ==> match t.scope_seq()[sid].parent {
            Some(p) => home_scope(t.scope_seq(), sid, name) == home_scope(t.scope_seq(), p as int, name),
            None => home_scope(t.scope_seq(), sid, name) is None,
        },
{
}

/// Entering a scope hides nothing: right after `enter_scope`, every name resolves
/// as it did before.
pub proof fn lemma_enter_keeps_lookups(s0: &SymbolTable, s1: &SymbolTable, name: Seq<char>)
    requires
        s0.wf(),
        s1.wf(),
        s1.cur() == s0.next_id(),
        s1.scope_seq().drop_last() == s0.scope_seq(),
        s1.scope_seq().len() == s0.scope_seq().len() + 1,
        s1.scope_seq().last().parent == Some(s0.cur()),
        s1.scope_seq().last().bindings() == Map::<Seq<char>, Symbol>::empty(),
    ensures
        s1.lookup_spec(name) == s0.lookup_spec(name),
{
    let n = s0.scope_seq().len() as int;
    assert(s1.scope_seq()[n] == s1.scope_seq().last());
    assert(!s1.scope_seq()[n].bindings().contains_key(name));
    assert forall|j: int| 0 <= j < n implies #[trigger] s1.scope_seq()[j] == s0.scope_seq()[j] by {
        assert(s1.scope_seq()[j] == s1.scope_seq().drop_last()[j]);
    }
    lemma_lookup_sees_only_ancestors(s0.scope_seq(), s1.scope_seq(), s0.cur() as int, name);
    if let Some(h) = home_scope(s0.scope_seq(), s0.cur() as int, name) {
        lemma_home_scope_in_range(s0.scope_seq(), s0.cur() as int, name);
    }
}

/// `all_symbols` is complete: every symbol stored in any of the first `n` scopes
/// occurs in `symbols_of(s, n)`, scope `i`'s symbols in their order right after
/// those of the scopes before `i`.
pub proof fn lemma_all_symbols_complete(s: Seq<Scope>, n: int)
    requires
        0 <= n <= s.len(),
    ensures
        forall|i: int|
            0 <= i < n ==> #[trigger] symbols_of(s, i).len() + s[i].symbols@.len() <= symbols_of(s, n).len(),
        forall|i: int, j: int|
            0 <= i < n && 0 <= j < s[i].symbols@.len() ==> symbols_of(s, n)[symbols_of(s, i).len() + j]
                == #[trigger] s[i].symbols@[j],
    decreases n,
{
    if n > 0 {
        lemma_all_symbols_complete(s, n - 1);
        let prev = symbols_of(s, n - 1);
        assert(symbols_of(s, n) == prev + s[n - 1].symbols@);
        assert forall|i: int| 0 <= i < n implies #[trigger] symbols_of(s, i).len() + s[i].symbols@.len()
            <= symbols_of(s, n).len() by {
            if i < n - 1 {
                assert(symbols_of(s, i).len() + s[i].symbols@.len() <= prev.len());
            }
        }
        assert forall|i: int, j: int|
            0 <= i < n && 0 <= j < s[i].symbols@.len() implies symbols_of(s, n)[symbols_of(s, i).len() + j]
                == #[trigger] s[i].symbols@[j] by {
            if i < n - 1 {
                assert(symbols_of(s, i).len() + s[i].symbols@.len() <= prev.len());
                assert(prev[symbols_of(s, i).len() + j] == s[i].symbols@[j]);
            }
        }
    } else {
        assert(symbols_of(s, n).len() == 0);
    }
}

/// A change made through `lookup_mut` is what later lookups of that name find;
/// every other name resolves as before.
pub proof fn lemma_lookup_mut_write_visible(
    pre: &SymbolTable,
    post: &SymbolTable,
    name: Seq<char>,
    v: Symbol,
    other: Seq<char>,
)
    requires
        pre.wf(),
        post.wf(),
        home_scope(pre.scope_seq(), pre.cur() as int, name) is Some,
        ({
            let h = home_scope(pre.scope_seq(), pre.cur() as int, name).unwrap();
            &&& post.cur() == pre.cur()
            &&& post.scope_seq().len() == pre.scope_seq().len()
            &&& forall|i: int|
                0 <= i < pre.scope_seq().len() && i != h ==> #[trigger] post.scope_seq()[i] == pre.scope_seq()[i]
            &&& post.scope_seq()[h].parent == pre.scope_seq()[h].parent
            &&& post.scope_seq()[h].bindings() == pre.scope_seq()[h].bindings().insert(name, v)
        }),
        other != name,
    ensures
        post.lookup_spec(name) == Some(v),
        post.lookup_spec(other) == pre.lookup_spec(other),
{
    let h = home_scope(pre.scope_seq(), pre.cur() as int, name).unwrap();
    lemma_home_scope_in_range(pre.scope_seq(), pre.cur() as int, name);
    lemma_home_unchanged(pre.scope_seq(), post.scope_seq(), pre.cur() as int, h, name, v, name);
    lemma_home_unchanged(pre.scope_seq(), post.scope_seq(), pre.cur() as int, h, name, v, other);
    lemma_home_scope_in_range(pre.scope_seq(), pre.cur() as int, other);
}

/// Rebinding a name already declared in scope `h` leaves every walk's stopping
/// point unchanged.
proof fn lemma_home_unchanged(
    s1: Seq<Scope>,
    s2: Seq<Scope>,
    sid: int,
    h: int,
    name: Seq<char>,
    v: Symbol,
    query: Seq<char>,
)
    requires
        s1.len() == s2.len(),
        0 <= h < s1.len(),
        s1[h].bindings().contains_key(name),
        forall|i: int| 0 <= i < s1.len() && i != h ==> #[trigger] s2[i] == s1[i],
        s2[h].parent == s1[h].parent,
        s2[h].bindings() == s1[h].bindings().insert(name, v),
    ensures
        home_scope(s2, sid, query) == home_scope(s1, sid, query),
    decreases sid + 1,
{
    if 0 <= sid < s1.len() {
        if sid == h {
            assert(s2[h].bindings().dom() == s1[h].bindings().dom());
        }
        if let Some(p) = s1[sid].parent {
            if p < sid {
                lemma_home_unchanged(s1, s2, p as int, h, name, v, query);
            }
        }
    }
}

} // verus!
