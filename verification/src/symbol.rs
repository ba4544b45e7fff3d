//! Symbol type representing an interned string identifier.

use core::cmp::Ordering;
use vstd::prelude::*;
use vstd::std_specs::cmp::PartialOrdSpecImpl;

verus! {

/// A symbol is a lightweight handle to an interned string.
/// Two symbols are equal if and only if they refer to the same interned string.
///
/// The one field is the index into the interner's string table; the derived
/// `Debug` prints `Symbol(N)`.
#[derive(Clone, Copy, Debug, PartialEq, Eq, Structural, Hash, Ord)]
pub struct Symbol(u32);

impl Symbol {
    /// The raw index that this symbol carries.
    pub closed spec fn index(self) -> u32 {
        self.0
    }

    /// Create a new symbol from an index.
    pub fn new(index: u32) -> (s: Self)
        ensures
            s.index() == index,
    {
        Self(index)
    }

    /// Returns the raw index of this symbol.
    pub fn as_u32(self) -> (r: u32)
        ensures
            r == self.index(),
    {
        self.0
    }

    /// Returns the raw index as a usize.
    pub fn as_usize(self) -> (r: usize)
        ensures
            r == self.index() as usize,
    {
        self.0 as usize
    }

    /// A placeholder symbol for testing.
    pub fn placeholder() -> (s: Self)
        ensures
            s.index() == u32::MAX,
    {
        Self(u32::MAX)
    }

    /// Check if this is the placeholder symbol.
    pub fn is_placeholder(self) -> (b: bool)
        ensures
            b <==> self.index() == u32::MAX,
    {
        self.0 == u32::MAX
    }

    /// The text that displays this symbol: `sym#` then the index in decimal.
    pub fn to_display_string(self) -> (s: String)
        ensures
            s@ == seq!['s', 'y', 'm', '#'] + decimal(self.index() as nat),
    {
        let mut s = String::from_str("sym#");
        proof {
            reveal_strlit("sym#");
        }
        let digits = decimal_string(self.0);
        s.append(digits.as_str());
        s
    }

    /// The debugging text of this symbol: `Symbol(` , the index in decimal, `)`.
    pub fn to_debug_string(self) -> (s: String)
        ensures
            s@ == seq!['S', 'y', 'm', 'b', 'o', 'l', '('] + decimal(self.index() as nat) + seq![')'],
    {
        let mut s = String::from_str("Symbol(");
        proof {
            reveal_strlit("Symbol(");
            reveal_strlit(")");
        }
        let digits = decimal_string(self.0);
        s.append(digits.as_str());
        s.append(")");
        s
    }
}

/// Symbols are ordered by their indices.
impl PartialOrd for Symbol {
    fn partial_cmp(&self, other: &Self) -> (r: Option<Ordering>) {
        if self.0 < other.0 {
            Some(Ordering::Less)
        } else if self.0 == other.0 {
            Some(Ordering::Equal)
        } else {
            Some(Ordering::Greater)
        }
    }
}

impl PartialOrdSpecImpl for Symbol {
    open spec fn obeys_partial_cmp_spec() -> bool {
        true
    }

    open spec fn partial_cmp_spec(&self, other: &Self) -> Option<Ordering> {
        if self.index() < other.index() {
            Some(Ordering::Less)
        } else if self.index() == other.index() {
            Some(Ordering::Equal)
        } else {
            Some(Ordering::Greater)
        }
    }
}

/// Symbols compare as their indices do: equal exactly when the indices are
/// equal, less exactly when the index is smaller.
pub proof fn lemma_symbol_order(a: Symbol, b: Symbol)
    ensures
        (vstd::std_specs::cmp::PartialOrdSpec::partial_cmp_spec(&a, &b) == Some(Ordering::Equal)) <==> a == b,
        (vstd::std_specs::cmp::PartialOrdSpec::partial_cmp_spec(&a, &b) == Some(Ordering::Less)) <==> a.index() < b.index(),
        (vstd::std_specs::cmp::PartialOrdSpec::partial_cmp_spec(&a, &b) == Some(Ordering::Greater)) <==> a.index() > b.index(),
{
}

/// The character of a decimal digit.
pub open spec fn digit_char(d: nat) -> char {
    if d == 0 { '0' }
    else if d == 1 { '1' }
    else if d == 2 { '2' }
    else if d == 3 { '3' }
    else if d == 4 { '4' }
    else if d == 5 { '5' }
    else if d == 6 { '6' }
    else if d == 7 { '7' }
    else if d == 8 { '8' }
    else { '9' }
}

/// The decimal notation of `n`, most significant digit first, without leading zeros.
pub open spec fn decimal(n: nat) -> Seq<char>
    decreases n,
{
    if n < 10 {
        seq![digit_char(n)]
    } else {
        decimal(n / 10).push(digit_char(n % 10))
    }
}

fn digit_str(d: u32) -> (s: &'static str)
    requires
        d < 10,
    ensures
        s@ == seq![digit_char(d as nat)],
{
    proof {
        reveal_strlit("0");
        reveal_strlit("1");
        reveal_strlit("2");
        reveal_strlit("3");
        reveal_strlit("4");
        reveal_strlit("5");
        reveal_strlit("6");
        reveal_strlit("7");
        reveal_strlit("8");
        reveal_strlit("9");
    }
    if d == 0 { "0" }
    else if d == 1 { "1" }
    else if d == 2 { "2" }
    else if d == 3 { "3" }
    else if d == 4 { "4" }
    else if d == 5 { "5" }
    else if d == 6 { "6" }
    else if d == 7 { "7" }
    else if d == 8 { "8" }
    else { "9" }
}

fn decimal_string(n: u32) -> (s: String)
    ensures
        s@ == decimal(n as nat),
    decreases n,
{
    if n < 10 {
        String::from_str(digit_str(n))
    } else {
        let mut s = decimal_string(n / 10);
        s.append(digit_str(n % 10));
        s
    }
}

/// Symbols are equal exactly when their indices are equal.
pub proof fn lemma_symbol_eq_iff_index_eq(a: Symbol, b: Symbol)
    ensures
        (a == b) <==> (a.index() == b.index()),
{
}

/// The number that a string of decimal digits denotes, most significant first.
pub open spec fn digits_value(s: Seq<char>) -> int
    decreases s.len(),
{
    if s.len() == 0 {
        0
    } else {
        digits_value(s.drop_last()) * 10 + (s.last() as int - '0' as int)
    }
}

/// Each digit character is the one whose code is that of `'0'` plus the digit.
pub proof fn lemma_digit_char_code(d: nat)
    requires
        d < 10,
    ensures
        digit_char(d) as int == '0' as int + d,
{
}

/// `decimal(n)` is the standard base-10 notation of `n`: it is made of the
/// characters `'0'` to `'9'`, starts with `'0'` only when it is `"0"`, and reads
/// back as `n`.
pub proof fn lemma_decimal_reads_back(n: nat)
    ensures
        decimal(n).len() >= 1,
        forall|i: int| 0 <= i < decimal(n).len() ==> '0' as int <= #[trigger] decimal(n)[i] as int <= '9' as int,
        decimal(n)[0] == '0' ==> n == 0 && decimal(n).len() == 1,
        digits_value(decimal(n)) == n,
    decreases n,
{
    if n < 10 {
        lemma_digit_char_code(n);
        assert(decimal(n) =~= seq![digit_char(n)]);
        assert(decimal(n).drop_last() =~= Seq::<char>::empty());
        assert(digits_value(decimal(n).drop_last()) == 0);
    } else {
        lemma_decimal_reads_back(n / 10);
        lemma_digit_char_code(n % 10);
        let s = decimal(n);
        assert(s == decimal(n / 10).push(digit_char(n % 10)));
        assert(s.drop_last() =~= decimal(n / 10));
        assert forall|i: int| 0 <= i < s.len() implies '0' as int <= #[trigger] s[i] as int <= '9' as int by {
            if i < s.len() - 1 {
                assert(s[i] == decimal(n / 10)[i]);
            }
        }
        assert(s[0] == decimal(n / 10)[0]);
        assert(digits_value(s) == digits_value(decimal(n / 10)) * 10 + (n % 10));
        assert((n / 10) * 10 + n % 10 == n);
    }
}

} // verus!
