//! String interner for deduplicating string storage.

use crate::symbol::Symbol;
use vstd::hash_map::StringHashMap;
use vstd::prelude::*;

verus! {

/// A string interner that stores unique strings and returns symbol handles.
pub struct StringInterner {
    strings: Vec<String>,
    map: StringHashMap<u32>,
}

impl StringInterner {
    /// The interned strings, in the order they were first interned.
    pub closed spec fn strings(&self) -> Seq<Seq<char>> {
        self.strings@.map_values(|s: String| s@)
    }

    /// The lookup table from string to position in `strings`.
    pub closed spec fn table(&self) -> Map<Seq<char>, u32> {
        self.map@
    }

    /// Well-formedness: each interned string is a key of the table, mapped to its
    /// position; the table has as many keys as there are strings, each mapped below
    /// their count; and while positions fit in a `u32`, each key's position holds
    /// that very string.
    pub open spec fn wf(&self) -> bool {
        &&& self.table().dom().finite()
        &&& self.table().len() == self.strings().len()
        &&& forall|i: int|
            0 <= i < self.strings().len() ==> {
                &&& #[trigger] self.table().contains_key(self.strings()[i])
                &&& self.table()[self.strings()[i]] == i as u32
            }
        &&& forall|k: Seq<char>|
            #[trigger] self.table().contains_key(k) ==> (self.table()[k] as int) < self.strings().len()
        &&& self.strings().len() <= u32::MAX as int + 1 ==> forall|k: Seq<char>|
            #[trigger] self.table().contains_key(k) ==> self.strings()[self.table()[k] as int] == k
    }

    /// What one `intern` of `s` does: `post` is the interner after the call on
    /// `pre`, and `sym` the symbol it returned.
    pub open spec fn intern_step(pre: &StringInterner, post: &StringInterner, s: Seq<char>, sym: Symbol) -> bool {
        if pre.table().contains_key(s) {
            &&& sym.index() == pre.table()[s]
            &&& post.strings() == pre.strings()
            &&& post.table() == pre.table()
        } else {
            &&& sym.index() == pre.strings().len() as u32
            &&& post.strings() == pre.strings().push(s)
            &&& post.table() == pre.table().insert(s, pre.strings().len() as u32)
        }
    }

    /// Create a new empty interner.
    pub fn new() -> (t: Self)
        ensures
            t.wf(),
            t.strings() == Seq::<Seq<char>>::empty(),
            t.table() == Map::<Seq<char>, u32>::empty(),
    {
        Self { strings: Vec::new(), map: StringHashMap::new() }
    }

    /// Intern a string, returning its symbol. If the string was already
    /// interned, returns the existing symbol.
    pub fn intern(&mut self, s: &str) -> (sym: Symbol)
        requires
            old(self).wf(),
        ensures
            final(self).wf(),
            StringInterner::intern_step(old(self), final(self), s@, sym),
    {
        match self.map.get(s) {
            Some(idx) => {
                return Symbol::new(*idx);
            },
            None => {},
        }
        let ghost pre_strings = self.strings();
        let ghost pre_table = self.table();
        let len = self.strings.len();
        let idx: u32 = #[verifier::truncate] (len as u32);
        self.strings.push(s.to_string());
        self.map.insert(s.to_string(), idx);
        assert(self.strings() =~= pre_strings.push(s@));
        assert forall|i: int| 0 <= i < self.strings().len() implies {
            &&& #[trigger] self.table().contains_key(self.strings()[i])
            &&& self.table()[self.strings()[i]] == i as u32
        } by {
            if i < len {
                assert(pre_table.contains_key(pre_strings[i]));
            }
        }
        Symbol::new(idx)
    }

    /// Get the string for a given symbol, if it exists.
    pub fn get(&self, sym: Symbol) -> (r: Option<&str>)
        ensures
            r is Some <==> (sym.index() as int) < self.strings().len(),
            r matches Some(t) ==> t@ == self.strings()[sym.index() as int],
    {
        let i = sym.as_usize();
        if i < self.strings.len() {
            Some(self.strings[i].as_str())
        } else {
            None
        }
    }

    /// Returns the number of interned strings.
    pub fn len(&self) -> (n: usize)
        ensures
            n == self.strings().len(),
    {
        self.strings.len()
    }

    /// Returns true if no strings have been interned.
    pub fn is_empty(&self) -> (b: bool)
        ensures
            b <==> self.strings().len() == 0,
    {
        self.strings.len() == 0
    }

    /// Check if a string has been interned.
    pub fn contains(&self, s: &str) -> (b: bool)
        ensures
            b == self.table().contains_key(s@),
    {
        self.map.contains_key(s)
    }

    /// Returns the symbol for an already-interned string.
    pub fn get_symbol(&self, s: &str) -> (r: Option<Symbol>)
        ensures
            r is Some <==> self.table().contains_key(s@),
            r matches Some(sym) ==> sym.index() == self.table()[s@],
    {
        match self.map.get(s) {
            Some(idx) => Some(Symbol::new(*idx)),
            None => None,
        }
    }
}

impl Default for StringInterner {
    fn default() -> (t: Self)
        ensures
            t.wf(),
            t.strings() == Seq::<Seq<char>>::empty(),
            t.table() == Map::<Seq<char>, u32>::empty(),
    {
        Self::new()
    }
}

/// After interning `s`, the table maps `s` to the returned symbol, so `contains(s)`
/// holds and `get_symbol(s)` gives that symbol back.
pub proof fn lemma_intern_records_symbol(pre: &StringInterner, post: &StringInterner, s: Seq<char>, sym: Symbol)
    requires
        StringInterner::intern_step(pre, post, s, sym),
    ensures
        post.table().contains_key(s),
        post.table()[s] == sym.index(),
{
}

/// Interning never forgets: every string already interned keeps its symbol and
/// its position.
pub proof fn lemma_intern_monotone(pre: &StringInterner, post: &StringInterner, s: Seq<char>, sym: Symbol)
    requires
        StringInterner::intern_step(pre, post, s, sym),
    ensures
        pre.table().submap_of(post.table()),
        pre.strings().len() <= post.strings().len(),
        forall|i: int| 0 <= i < pre.strings().len() ==> #[trigger] post.strings()[i] == pre.strings()[i],
{
}

/// Interning a string that was interned before, after any operations that kept
/// the table (as every intern does), returns the same symbol and stores nothing new.
pub proof fn lemma_intern_same_string_same_symbol(
    a: &StringInterner,
    b: &StringInterner,
    c: &StringInterner,
    d: &StringInterner,
    s: Seq<char>,
    x: Symbol,
    y: Symbol,
)
    requires
        StringInterner::intern_step(a, b, s, x),
        b.table().submap_of(c.table()),
        StringInterner::intern_step(c, d, s, y),
    ensures
        y == x,
        d.strings() == c.strings(),
        d.table() == c.table(),
{
    lemma_intern_records_symbol(a, b, s, x);
    assert(b.table().dom().contains(s));
    assert(c.table()[s] == b.table()[s]);
    crate::symbol::lemma_symbol_eq_iff_index_eq(x, y);
}

/// Reading back: `get` on the symbol that `intern(s)` returned yields `s`, as long
/// as the interner then holds at most `u32::MAX + 1` strings.
pub proof fn lemma_intern_then_get(pre: &StringInterner, post: &StringInterner, s: Seq<char>, sym: Symbol)
    requires
        pre.wf(),
        post.wf(),
        StringInterner::intern_step(pre, post, s, sym),
        post.strings().len() <= u32::MAX as int + 1,
    ensures
        (sym.index() as int) < post.strings().len(),
        post.strings()[sym.index() as int] == s,
{
    lemma_intern_records_symbol(pre, post, s, sym);
}

/// Two interned strings share a symbol only if they are the same string, as long as
/// the interner holds at most `u32::MAX + 1` strings.
pub proof fn lemma_distinct_strings_distinct_symbols(t: &StringInterner, k1: Seq<char>, k2: Seq<char>)
    requires
        t.wf(),
        t.strings().len() <= u32::MAX as int + 1,
        t.table().contains_key(k1),
        t.table().contains_key(k2),
        k1 != k2,
    ensures
        t.table()[k1] != t.table()[k2],
{
}

} // verus!
