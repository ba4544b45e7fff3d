//! Hash consing for structural sharing of values.

use std::collections::hash_map::DefaultHasher;
use std::collections::HashMap;
use std::hash::{Hash, Hasher};
use vstd::prelude::*;
use vstd::std_specs::hash::DefaultHasherAdditionalSpecFns;

verus! {

/// A hash-consed value identifier.
#[derive(Clone, Copy, PartialEq, Eq, Structural, Hash, Debug)]
pub struct HCValue(u64);

impl HCValue {
    /// The raw id carried by this handle.
    pub closed spec fn value(self) -> u64 {
        self.0
    }

    fn new(id: u64) -> (v: Self)
        ensures
            v.value() == id,
    {
        Self(id)
    }

    /// Returns the raw id.
    pub fn id(self) -> (r: u64)
        ensures
            r == self.value(),
    {
        self.0
    }
}

/// Names the writes that `<[u8] as Hash>::hash` makes into a `DefaultHasher` whose
/// recorded writes so far are `prior`, when hashing the bytes `data`.
pub uninterp spec fn slice_hash_writes(prior: Seq<Seq<u8>>, data: Seq<u8>) -> Seq<Seq<u8>>;

/// Feeds `data` into `state` through `<[u8] as Hash>::hash`.
/// Trusted: the writes it records are a function of the writes recorded before and
/// of the bytes alone, for the target the crate is built for (named by
/// `slice_hash_writes`). Which writes those are is left unsaid: the documentation
/// of `Hash` asks slice impls to be prefix-free but does not fix how a slice of
/// bytes is split into `Hasher::write` calls, and nothing here needs more than
/// the name.
#[verifier::external_body]
fn hash_byte_slice(data: &[u8], state: &mut DefaultHasher)
    ensures
        final(state)@ == slice_hash_writes(old(state)@, data@),
{
    data.hash(state);
}

/// The 64-bit digest that a fresh `DefaultHasher` gives for `data`.
pub open spec fn data_hash(data: Seq<u8>) -> u64 {
    DefaultHasher::spec_finish(slice_hash_writes(Seq::empty(), data))
}

/// A hash cons table that ensures structural equality implies pointer equality.
/// Stores serialized representations and deduplicates via hashing.
pub struct HashCons {
    entries: Vec<Vec<u8>>,
    map: HashMap<u64, u32>,
    counter: u64,
}

impl HashCons {
    /// The stored byte strings, in the order they were first added.
    pub closed spec fn entries(&self) -> Seq<Seq<u8>> {
        self.entries@.map_values(|e: Vec<u8>| e@)
    }

    /// The hash index: digest to position in `entries`.
    pub closed spec fn index(&self) -> Map<u64, u32> {
        self.map@
    }

    /// The number of cons operations performed so far.
    pub closed spec fn ops(&self) -> u64 {
        self.counter
    }

    /// Well-formedness: there is one entry per indexed digest, no more entries than
    /// cons operations, and every position the index names is a stored entry.
    pub open spec fn wf(&self) -> bool {
        &&& self.index().dom().finite()
        &&& self.index().len() == self.entries().len()
        &&& self.entries().len() <= self.ops()
        &&& forall|h: u64| #[trigger] self.index().contains_key(h) ==> (self.index()[h] as int) < self.entries().len()
    }

    /// Every stored entry is indexed under its own digest, at its own position,
    /// and (while positions fit in a `u32`) every indexed digest is the digest of
    /// the entry it names. This holds of every table built by `new` and `cons`
    /// alone (`cons_with_hash` may be handed any digest).
    pub open spec fn digests_match(&self) -> bool {
        &&& forall|i: int|
            0 <= i < self.entries().len() ==> {
                &&& #[trigger] self.index().contains_key(data_hash(self.entries()[i]))
                &&& self.index()[data_hash(self.entries()[i])] == i as u32
            }
        &&& self.entries().len() <= u32::MAX as int ==> forall|h: u64|
            #[trigger] self.index().contains_key(h) ==> data_hash(self.entries()[self.index()[h] as int]) == h
    }

    /// What one cons of `data`, whose digest is `h`, does: `post` is the table
    /// after the call on `pre`, and `v` the handle it returned.
    pub open spec fn cons_step(pre: &HashCons, post: &HashCons, h: u64, data: Seq<u8>, v: HCValue) -> bool {
        &&& post.ops() == pre.ops() + 1
        &&& if pre.index().contains_key(h) {
            &&& v.value() == pre.index()[h] as u64
            &&& post.entries() == pre.entries()
            &&& post.index() == pre.index()
        } else {
            &&& v.value() == (pre.entries().len() as u32) as u64
            &&& post.entries() == pre.entries().push(data)
            &&& post.index() == pre.index().insert(h, pre.entries().len() as u32)
        }
    }

    /// Create a new empty hash cons table.
    pub fn new() -> (hc: Self)
        ensures
            hc.wf(),
            hc.digests_match(),
            hc.entries() == Seq::<Seq<u8>>::empty(),
            hc.index() == Map::<u64, u32>::empty(),
            hc.ops() == 0,
    {
        Self { entries: Vec::new(), map: HashMap::new(), counter: 0 }
    }

    /// The step of `cons` that follows hashing: looks `hash` up in the index
    /// and either returns the handle found there or stores `data` as a new entry.
    pub fn cons_with_hash(&mut self, hash: u64, data: &[u8]) -> (v: HCValue)
        requires
            old(self).wf(),
            old(self).ops() < u64::MAX,
        ensures
            final(self).wf(),
            HashCons::cons_step(old(self), final(self), hash, data@, v),
    {
        self.counter += 1;
        assert(self.entries() == old(self).entries());
        match self.map.get(&hash) {
            Some(idx) => {
                return HCValue::new(*idx as u64);
            },
            None => {},
        }
        let len = self.entries.len();
        let idx: u32 = #[verifier::truncate] (len as u32);
        let ghost old_entries = self.entries();
        self.entries.push(vstd::slice::slice_to_vec(data));
        self.map.insert(hash, idx);
        assert(self.entries() =~= old_entries.push(data@));
        HCValue::new(idx as u64)
    }

    /// Insert raw bytes into the hash cons table.
    /// Returns a handle that is equal for identical bytes.
    pub fn cons(&mut self, data: &[u8]) -> (v: HCValue)
        requires
            old(self).wf(),
            old(self).ops() < u64::MAX,
        ensures
            final(self).wf(),
            old(self).digests_match() ==> final(self).digests_match(),
            HashCons::cons_step(old(self), final(self), data_hash(data@), data@, v),
    {
        let hash = Self::compute_hash(data);
        let v = self.cons_with_hash(hash, data);
        proof {
            if old(self).digests_match() && !old(self).index().contains_key(hash) {
                assert forall|i: int| 0 <= i < self.entries().len() implies {
                    &&& #[trigger] self.index().contains_key(data_hash(self.entries()[i]))
                    &&& self.index()[data_hash(self.entries()[i])] == i as u32
                } by {
                    if i < old(self).entries().len() {
                        assert(old(self).index().contains_key(data_hash(old(self).entries()[i])));
                    }
                }
                if self.entries().len() <= u32::MAX as int {
                    assert forall|h: u64| #[trigger] self.index().contains_key(h) implies data_hash(
                        self.entries()[self.index()[h] as int],
                    ) == h by {
                        if h != hash {
                            assert(old(self).index().contains_key(h));
                        }
                    }
                }
            }
        }
        v
    }

    /// Get the data for a hash-consed value.
    pub fn get(&self, val: HCValue) -> (r: Option<&[u8]>)
        ensures
            r is Some <==> (val.value() as usize as int) < self.entries().len(),
            r matches Some(s) ==> s@ == self.entries()[val.value() as usize as int],
    {
        let i: usize = val.id() as usize;
        if i < self.entries.len() {
            Some(self.entries[i].as_slice())
        } else {
            None
        }
    }

    /// Number of unique entries.
    pub fn len(&self) -> (n: usize)
        ensures
            n == self.entries().len(),
    {
        self.entries.len()
    }

    /// Returns true if empty.
    pub fn is_empty(&self) -> (b: bool)
        ensures
            b <==> self.entries().len() == 0,
    {
        self.entries.len() == 0
    }

    /// Total number of cons operations (including duplicates).
    pub fn total_operations(&self) -> (n: u64)
        ensures
            n == self.ops(),
    {
        self.counter
    }

    fn compute_hash(data: &[u8]) -> (h: u64)
        ensures
            h == data_hash(data@),
    {
        let mut hasher = DefaultHasher::new();
        hash_byte_slice(data, &mut hasher);
        hasher.finish()
    }
}

impl Default for HashCons {
    fn default() -> (hc: Self)
        ensures
            hc.wf(),
            hc.digests_match(),
            hc.entries() == Seq::<Seq<u8>>::empty(),
            hc.index() == Map::<u64, u32>::empty(),
            hc.ops() == 0,
    {
        Self::new()
    }
}

/// After a cons, the index maps the digest of the consed bytes to the handle returned.
pub proof fn lemma_cons_records_handle(pre: &HashCons, post: &HashCons, h: u64, data: Seq<u8>, v: HCValue)
    requires
        HashCons::cons_step(pre, post, h, data, v),
    ensures
        post.index().contains_key(h),
        post.index()[h] as u64 == v.value(),
{
}

/// A cons never forgets: every digest already indexed keeps its handle, and every
/// stored entry stays where it was.
pub proof fn lemma_cons_monotone(pre: &HashCons, post: &HashCons, h: u64, data: Seq<u8>, v: HCValue)
    requires
        HashCons::cons_step(pre, post, h, data, v),
    ensures
        pre.index().submap_of(post.index()),
        pre.entries().len() <= post.entries().len(),
        forall|i: int| 0 <= i < pre.entries().len() ==> #[trigger] post.entries()[i] == pre.entries()[i],
{
}

/// Structural equality implies handle equality: once bytes have been consed, consing
/// identical bytes again, after any further operations that kept the index (as every
/// cons does), returns the same handle and adds no entry.
pub proof fn lemma_cons_identical_bytes_same_handle(
    a: &HashCons,
    b: &HashCons,
    c: &HashCons,
    d: &HashCons,
    data: Seq<u8>,
    v: HCValue,
    w: HCValue,
)
    requires
        HashCons::cons_step(a, b, data_hash(data), data, v),
        b.index().submap_of(c.index()),
        HashCons::cons_step(c, d, data_hash(data), data, w),
    ensures
        w == v,
        d.entries() == c.entries(),
        d.index() == c.index(),
{
    let h = data_hash(data);
    lemma_cons_records_handle(a, b, h, data, v);
    assert(b.index().dom().contains(h));
    assert(c.index()[h] == b.index()[h]);
}

/// Consing bytes that are already stored returns their handle and adds nothing,
/// in any table built by `new` and `cons`.
pub proof fn lemma_cons_stored_bytes(pre: &HashCons, post: &HashCons, data: Seq<u8>, v: HCValue, j: int)
    requires
        pre.digests_match(),
        0 <= j < pre.entries().len(),
        pre.entries()[j] == data,
        HashCons::cons_step(pre, post, data_hash(data), data, v),
    ensures
        v.value() == (j as u32) as u64,
        post.entries() == pre.entries(),
        post.index() == pre.index(),
{
    assert(pre.index().contains_key(data_hash(pre.entries()[j])));
}

/// The digest a table keys on is that of the whole byte string: what a fresh
/// `DefaultHasher` finishes with after all of `data` is hashed into it.
pub proof fn lemma_digest_covers_whole_slice(data: Seq<u8>)
    ensures
        data_hash(data) == DefaultHasher::spec_finish(slice_hash_writes(Seq::<Seq<u8>>::empty(), data)),
{
}

/// In a table built by `new` and `cons` (with fewer than `u32::MAX` entries), the
/// entry that `cons(data)` hands back has the same whole-slice digest as `data`:
/// byte strings with different digests never share a handle.
pub proof fn lemma_cons_result_has_same_digest(pre: &HashCons, post: &HashCons, data: Seq<u8>, v: HCValue)
    requires
        pre.wf(),
        pre.digests_match(),
        pre.entries().len() < u32::MAX,
        HashCons::cons_step(pre, post, data_hash(data), data, v),
    ensures
        (v.value() as int) < post.entries().len(),
        DefaultHasher::spec_finish(slice_hash_writes(Seq::<Seq<u8>>::empty(), post.entries()[v.value() as int]))
            == DefaultHasher::spec_finish(slice_hash_writes(Seq::<Seq<u8>>::empty(), data)),
{
    let h = data_hash(data);
    if pre.index().contains_key(h) {
        assert(pre.index().contains_key(h));
    }
}

/// Reading back fresh bytes: when the digest of `data` was not yet indexed (and the
/// table holds fewer than `u32::MAX` entries, so the position is not truncated),
/// `get` on the returned handle yields exactly `data`.
pub proof fn lemma_cons_then_get(pre: &HashCons, post: &HashCons, h: u64, data: Seq<u8>, v: HCValue)
    requires
        HashCons::cons_step(pre, post, h, data, v),
        !pre.index().contains_key(h),
        pre.entries().len() < u32::MAX,
    ensures
        (v.value() as usize as int) < post.entries().len(),
        post.entries()[v.value() as usize as int] == data,
{
}

} // verus!
