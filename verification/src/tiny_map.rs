use tinyvec::TinyVec;
use vstd::prelude::*;

verus! {

/// The backing storage of a [`TinyMap`]: a `TinyVec` with room for three
/// entries inline, opaque to the verifier.
#[verifier::external_body]
#[derive(Debug)]
pub struct Storage {
    items: TinyVec<[(usize, u32); 3]>,
}

/// The number of entries that a [`Storage`] holds without allocating.
pub const INLINE_CAPACITY: usize = 3;

/// The entries that a [`Storage`] holds, in storage order.
pub uninterp spec fn storage_items(s: Storage) -> Seq<(usize, u32)>;

/// Whether a [`Storage`] keeps its entries inline, in the array, and not in
/// an allocation of their own.
pub uninterp spec fn storage_inline(s: Storage) -> bool;

/// `TinyVec::new`: the new vector holds nothing, and holds it inline.
#[verifier::external_body]
fn storage_new() -> (r: Storage)
    ensures
        storage_items(r) == Seq::<(usize, u32)>::empty(),
        storage_inline(r),
{
    Storage { items: TinyVec::new() }
}

/// `TinyVec::clone`: the copy holds the same entries in the same order.
#[verifier::external_body]
fn storage_clone(s: &Storage) -> (r: Storage)
    ensures
        storage_items(r) == storage_items(*s),
{
    Storage { items: s.items.clone() }
}

/// `TinyVec::len`: the number of entries held.
#[verifier::external_body]
fn storage_len(s: &Storage) -> (r: usize)
    ensures
        r == storage_items(*s).len(),
{
    s.items.len()
}

/// `TinyVec::is_empty`: whether no entry is held.
#[verifier::external_body]
fn storage_is_empty(s: &Storage) -> (r: bool)
    ensures
        r == (storage_items(*s).len() == 0),
{
    s.items.is_empty()
}

/// `TinyVec::capacity`: room for at least the entries that are held; for
/// inline storage, the length of the array.
#[verifier::external_body]
fn storage_capacity(s: &Storage) -> (r: usize)
    ensures
        r >= storage_items(*s).len(),
        storage_inline(*s) ==> r == INLINE_CAPACITY,
{
    s.items.capacity()
}

/// `TinyVec::clear`: truncates to no entries.
#[verifier::external_body]
fn storage_clear(s: &mut Storage)
    ensures
        storage_items(*final(s)) == Seq::<(usize, u32)>::empty(),
{
    s.items.clear()
}

/// `TinyVec::shrink_to_fit`: the entries stay as they are. Inline storage
/// stays inline; allocated storage moves back into the array where the
/// entries fit in it, and stays allocated where they do not.
#[verifier::external_body]
fn storage_shrink_to_fit(s: &mut Storage)
    ensures
        storage_items(*final(s)) == storage_items(*old(s)),
        storage_inline(*final(s)) == (storage_items(*old(s)).len() <= INLINE_CAPACITY),
{
    s.items.shrink_to_fit()
}

/// Indexing a `TinyVec`: a copy of the entry at `i`.
#[verifier::external_body]
fn storage_get(s: &Storage, i: usize) -> (r: (usize, u32))
    requires
        i < storage_items(*s).len(),
    ensures
        r == storage_items(*s)[i as int],
{
    s.items[i]
}

/// Indexing a `TinyVec` mutably: the slot handed out is the entry at `i`, and
/// whatever is left in it stands at `i` when the borrow ends; no other entry
/// changes.
#[verifier::external_body]
fn storage_index_mut(s: &mut Storage, i: usize) -> (slot: &mut (usize, u32))
    requires
        i < storage_items(*old(s)).len(),
    ensures
        *slot == storage_items(*old(s))[i as int],
        storage_items(*final(s)) == storage_items(*old(s)).update(i as int, *final(slot)),
{
    &mut s.items[i]
}

/// `TinyVec::insert`: the item is put at `idx` and what followed moves up by
/// one. It panics for an index past the end, which `requires` leaves out.
#[verifier::external_body]
fn storage_insert(s: &mut Storage, idx: usize, item: (usize, u32))
    requires
        idx <= storage_items(*old(s)).len(),
    ensures
        storage_items(*final(s)) == storage_items(*old(s)).insert(idx as int, item),
{
    s.items.insert(idx, item)
}

/// `binary_search_by_key` of the slice behind a `TinyVec`, by the key of each
/// entry. On entries sorted by key it gives `Ok` with the index of an entry
/// that has the key, or `Err` with the index at which the key keeps the order.
#[verifier::external_body]
fn storage_search(s: &Storage, key: usize) -> (r: Result<usize, usize>)
    requires
        sorted(storage_items(*s)),
    ensures
        match r {
            Ok(i) => i < storage_items(*s).len() && storage_items(*s)[i as int].0 == key,
            Err(i) => splits_at(storage_items(*s), key, i as int),
        },
{
    s.items.binary_search_by_key(&key, |e| e.0)
}

/// Keys strictly increase along the sequence: sorted, and no key twice.
pub open spec fn sorted(s: Seq<(usize, u32)>) -> bool {
    forall|i: int, j: int| 0 <= i < j < s.len() ==> s[i].0 < s[j].0
}

/// Every entry before `idx` has a smaller key, every entry from `idx` on a
/// larger one.
pub open spec fn splits_at(s: Seq<(usize, u32)>, key: usize, idx: int) -> bool {
    &&& 0 <= idx <= s.len()
    &&& forall|j: int| 0 <= j < idx ==> s[j].0 < key
    &&& forall|j: int| idx <= j < s.len() ==> s[j].0 > key
}

/// The number of leading entries whose key is below `key`; in a sorted
/// sequence, the index where `key` is or belongs.
pub open spec fn lower_bound(s: Seq<(usize, u32)>, key: usize) -> int
    decreases s.len(),
{
    if s.len() == 0 || s[0].0 >= key {
        0
    } else {
        1 + lower_bound(s.drop_first(), key)
    }
}

/// Whether a sorted sequence holds `key`.
pub open spec fn has_key(s: Seq<(usize, u32)>, key: usize) -> bool {
    lower_bound(s, key) < s.len() && s[lower_bound(s, key)].0 == key
}

/// The sorted sequence after `key` is bound to `val`: replaced in place
/// where the key is present, inserted at its place in the order where not.
pub open spec fn put(s: Seq<(usize, u32)>, key: usize, val: u32) -> Seq<(usize, u32)> {
    if has_key(s, key) {
        s.update(lower_bound(s, key), (key, val))
    } else {
        s.insert(lower_bound(s, key), (key, val))
    }
}

/// The sequence after each pair of `pairs` is bound in turn.
pub open spec fn put_all(s: Seq<(usize, u32)>, pairs: Seq<(usize, u32)>) -> Seq<(usize, u32)>
    decreases pairs.len(),
{
    if pairs.len() == 0 {
        s
    } else {
        put(put_all(s, pairs.drop_last()), pairs.last().0, pairs.last().1)
    }
}

/// An index before which all keys are smaller, and at which the key is not
/// smaller, is the lower bound.
pub proof fn lemma_lower_bound_is(s: Seq<(usize, u32)>, key: usize, idx: int)
    requires
        0 <= idx <= s.len(),
        forall|j: int| 0 <= j < idx ==> s[j].0 < key,
        idx < s.len() ==> s[idx].0 >= key,
    ensures
        lower_bound(s, key) == idx,
    decreases s.len(),
{
    if s.len() == 0 || s[0].0 >= key {
    } else {
        let t = s.drop_first();
        assert forall|j: int| 0 <= j < idx - 1 implies t[j].0 < key by {
            assert(t[j] == s[j + 1]);
        }
        lemma_lower_bound_is(t, key, idx - 1);
    }
}

/// The lower bound lies within the sequence, after the smaller keys only.
pub proof fn lemma_lower_bound_range(s: Seq<(usize, u32)>, key: usize)
    ensures
        0 <= lower_bound(s, key) <= s.len(),
        forall|j: int| 0 <= j < lower_bound(s, key) ==> s[j].0 < key,
        lower_bound(s, key) < s.len() ==> s[lower_bound(s, key)].0 >= key,
    decreases s.len(),
{
    if s.len() == 0 || s[0].0 >= key {
    } else {
        let t = s.drop_first();
        lemma_lower_bound_range(t, key);
        assert forall|j: int| 0 <= j < lower_bound(s, key) implies s[j].0 < key by {
            if j > 0 {
                assert(t[j - 1] == s[j]);
            }
        }
    }
}

/// Binding a key keeps a sorted sequence sorted, so no key comes twice.
pub proof fn lemma_put_sorted(s: Seq<(usize, u32)>, key: usize, val: u32)
    requires
        sorted(s),
    ensures
        sorted(put(s, key, val)),
        has_key(put(s, key, val), key),
        put(s, key, val)[lower_bound(s, key)] == (key, val),
        lower_bound(put(s, key, val), key) == lower_bound(s, key),
        put(s, key, val).len() == s.len() + if has_key(s, key) { 0int } else { 1int },
{
    lemma_lower_bound_range(s, key);
    let i = lower_bound(s, key);
    let t = put(s, key, val);
    assert forall|j: int| 0 <= j < i implies t[j].0 < key by {}
    lemma_lower_bound_is(t, key, i);
    assert forall|a: int, b: int| 0 <= a < b < t.len() implies t[a].0 < t[b].0 by {
        if has_key(s, key) {
            assert(s[a].0 < s[b].0);
        } else {
            let sa = if a < i { a } else { a - 1 };
            let sb = if b < i { b } else { b - 1 };
            if a != i && b != i {
                assert(s[sa].0 < s[sb].0);
            } else if a == i {
                assert(s[i].0 <= s[sb].0);
            }
        }
    }
}

/// Binding any pairs in any order keeps a sorted sequence sorted.
pub proof fn lemma_put_all_sorted(s: Seq<(usize, u32)>, pairs: Seq<(usize, u32)>)
    requires
        sorted(s),
    ensures
        sorted(put_all(s, pairs)),
    decreases pairs.len(),
{
    if pairs.len() > 0 {
        lemma_put_all_sorted(s, pairs.drop_last());
        lemma_put_sorted(put_all(s, pairs.drop_last()), pairs.last().0, pairs.last().1);
    }
}

/// A small map from `usize` keys to `u32` values, kept as entries sorted by
/// key in storage that holds up to three of them without allocating.
#[derive(Debug)]
pub struct TinyMap {
    inner: Storage,
}

/// A place in a [`TinyMap`] for one key: the entry that has the key, or the
/// index at which an entry for it would be inserted.
pub enum TinyMapEntry<'a> {
    /// The key is present: the entry that holds it.
    Occupied(&'a mut (usize, u32)),
    /// The key is absent: the storage, the key, and where it belongs.
    Vacant { inner: &'a mut Storage, key: usize, idx: usize },
}

impl Clone for TinyMap {
    fn clone(&self) -> (r: Self)
        ensures
            r@ == self@,
    {
        TinyMap { inner: storage_clone(&self.inner) }
    }
}

impl Default for TinyMap {
    fn default() -> (r: Self)
        ensures
            r@ == Seq::<(usize, u32)>::empty(),
            r.wf(),
    {
        TinyMap::new()
    }
}

impl TinyMap {
    /// The entries, in storage order.
    pub closed spec fn view(&self) -> Seq<(usize, u32)> {
        storage_items(self.inner)
    }

    /// The entries are sorted by key and no key comes twice.
    pub open spec fn wf(&self) -> bool {
        sorted(self@)
    }

    /// Whether the entries are kept inline, with nothing allocated for them.
    pub closed spec fn is_inline(&self) -> bool {
        storage_inline(self.inner)
    }

    /// Creates an empty map, with nothing allocated.
    pub fn new() -> (r: Self)
        ensures
            r@ == Seq::<(usize, u32)>::empty(),
            r.wf(),
            r.is_inline(),
    {
        TinyMap { inner: storage_new() }
    }

    /// The number of entries the storage has room for: the inline capacity
    /// while the entries are kept inline.
    pub fn capacity(&self) -> (r: usize)
        ensures
            r >= self@.len(),
            self.is_inline() ==> r == INLINE_CAPACITY,
    {
        storage_capacity(&self.inner)
    }

    /// Removes all entries.
    pub fn clear(&mut self)
        ensures
            final(self)@ == Seq::<(usize, u32)>::empty(),
            final(self).wf(),
    {
        storage_clear(&mut self.inner)
    }

    /// Whether the map has no entry.
    pub fn is_empty(&self) -> (r: bool)
        ensures
            r == (self@.len() == 0),
    {
        storage_is_empty(&self.inner)
    }

    /// The number of entries.
    pub fn len(&self) -> (r: usize)
        ensures
            r == self@.len(),
    {
        storage_len(&self.inner)
    }

    /// Gives back storage that is not needed; the entries stay as they are.
    /// Afterwards they are kept inline exactly when they fit in the inline
    /// capacity.
    pub fn shrink_to_fit(&mut self)
        ensures
            final(self)@ == old(self)@,
            final(self).is_inline() == (old(self)@.len() <= INLINE_CAPACITY),
    {
        storage_shrink_to_fit(&mut self.inner)
    }

    /// The values, in ascending order of their keys.
    pub fn values(&self) -> (r: Vec<u32>)
        ensures
            r@.len() == self@.len(),
            forall|i: int| 0 <= i < self@.len() ==> r@[i] == self@[i].1,
    {
        let n: usize = storage_len(&self.inner);
        let mut out: Vec<u32> = Vec::new();
        let mut i: usize = 0;
        while i < n
            invariant
                n == self@.len(),
                i <= n,
                out@.len() == i,
                forall|j: int| 0 <= j < i ==> out@[j] == self@[j].1,
            decreases n - i,
        {
            let e = storage_get(&self.inner, i);
            out.push(e.1);
            i += 1;
        }
        out
    }

    /// The place of `key` in the map: occupied by the entry that has the key,
    /// or vacant at the index where the key belongs. Nothing is changed until
    /// the entry is used; what is then left in it is what the map holds. The
    /// map stays sorted when an occupied entry keeps its key, and when a
    /// vacant one is filled at its index.
    pub fn entry(&mut self, key: usize) -> (e: TinyMapEntry<'_>)
        requires
            old(self).wf(),
        ensures
            match e {
                TinyMapEntry::Occupied(slot) => {
                    &&& has_key(old(self)@, key)
                    &&& 0 <= lower_bound(old(self)@, key) < old(self)@.len()
                    &&& *slot == old(self)@[lower_bound(old(self)@, key)]
                    &&& final(self)@ == old(self)@.update(
                        lower_bound(old(self)@, key),
                        *final(slot),
                    )
                    &&& final(slot).0 == key ==> final(self).wf()
                },
                TinyMapEntry::Vacant { inner, key: k, idx } => {
                    &&& !has_key(old(self)@, key)
                    &&& k == key
                    &&& idx == lower_bound(old(self)@, key)
                    &&& idx <= old(self)@.len()
                    &&& storage_items(*inner) == old(self)@
                    &&& final(self)@ == storage_items(*final(inner))
                    &&& forall|v: u32|
                        final(self)@ == #[trigger] old(self)@.insert(idx as int, (key, v))
                            ==> final(self).wf()
                },
            },
    {
        proof {
            lemma_lower_bound_range(self@, key);
            assert forall|v: u32| sorted(#[trigger] put(self@, key, v)) by {
                lemma_put_sorted(self@, key, v);
            }
        }
        match storage_search(&self.inner, key) {
            Ok(idx) => {
                proof {
                    assert forall|j: int| 0 <= j < idx implies self@[j].0 < key by {
                        assert(self@[j].0 < self@[idx as int].0);
                    }
                    lemma_lower_bound_is(self@, key, idx as int);
                }
                TinyMapEntry::Occupied(storage_index_mut(&mut self.inner, idx))
            },
            Err(idx) => {
                proof {
                    lemma_lower_bound_is(self@, key, idx as int);
                }
                TinyMapEntry::Vacant { inner: &mut self.inner, key, idx }
            },
        }
    }

    /// Binds `key` to `val`. Gives the value that the key had before, if any.
    pub fn insert(&mut self, key: usize, val: u32) -> (r: Option<u32>)
        requires
            old(self).wf(),
        ensures
            final(self).wf(),
            final(self)@ == put(old(self)@, key, val),
            0 <= lower_bound(old(self)@, key) <= old(self)@.len(),
            r == if has_key(old(self)@, key) {
                Some(old(self)@[lower_bound(old(self)@, key)].1)
            } else {
                None
            },
    {
        proof {
            lemma_lower_bound_range(self@, key);
            lemma_put_sorted(self@, key, val);
        }
        match storage_search(&self.inner, key) {
            Ok(i) => {
                proof {
                    assert forall|j: int| 0 <= j < i implies self@[j].0 < key by {
                        assert(self@[j].0 < self@[i as int].0);
                    }
                    lemma_lower_bound_is(self@, key, i as int);
                }
                let slot = storage_index_mut(&mut self.inner, i);
                let before: u32 = slot.1;
                slot.1 = val;
                Some(before)
            },
            Err(i) => {
                proof {
                    lemma_lower_bound_is(self@, key, i as int);
                }
                storage_insert(&mut self.inner, i, (key, val));
                None
            },
        }
    }

    /// Binds each pair of `pairs` in turn, as repeated `insert` does; the
    /// pairs may come in any order.
    pub fn extend(&mut self, pairs: Vec<(usize, u32)>)
        requires
            old(self).wf(),
        ensures
            final(self).wf(),
            final(self)@ == put_all(old(self)@, pairs@),
    {
        let n: usize = pairs.len();
        let mut i: usize = 0;
        assert(pairs@.take(0) =~= Seq::<(usize, u32)>::empty());
        while i < n
            invariant
                n == pairs@.len(),
                i <= n,
                self.wf(),
                self@ == put_all(old(self)@, pairs@.take(i as int)),
            decreases n - i,
        {
            let kv = pairs[i];
            assert(pairs@.take(i + 1).drop_last() =~= pairs@.take(i as int));
            assert(pairs@.take(i + 1).last() == pairs@[i as int]);
            self.insert(kv.0, kv.1);
            i += 1;
        }
        assert(pairs@.take(n as int) =~= pairs@);
    }
}

impl<'a> TinyMapEntry<'a> {
    /// Applies `f` to the value of an occupied entry; leaves a vacant one as
    /// it is. Gives the entry back.
    pub fn and_modify<F: FnOnce(u32) -> u32>(self, f: F) -> (r: Self)
        requires
            self matches TinyMapEntry::Occupied(slot) ==> f.requires((slot.1,)),
        ensures
            match self {
                TinyMapEntry::Occupied(slot) => {
                    &&& r matches TinyMapEntry::Occupied(rs)
                    &&& rs.0 == slot.0
                    &&& f.ensures((slot.1,), rs.1)
                    &&& *final(slot) == *final(rs)
                },
                TinyMapEntry::Vacant { inner, key, idx } => {
                    &&& r matches TinyMapEntry::Vacant { inner: ri, key: rk, idx: rx }
                    &&& rk == key
                    &&& rx == idx
                    &&& storage_items(*ri) == storage_items(*inner)
                    &&& storage_items(*final(inner)) == storage_items(*final(ri))
                },
            },
    {
        match self {
            TinyMapEntry::Occupied(slot) => {
                let v: u32 = f(slot.1);
                slot.1 = v;
                TinyMapEntry::Occupied(slot)
            },
            TinyMapEntry::Vacant { inner, key, idx } => TinyMapEntry::Vacant { inner, key, idx },
        }
    }

    /// The value of the entry: the one present, or `default`, inserted under
    /// the entry's key at its index.
    pub fn or_insert(self, default: u32) -> (r: &'a mut u32)
        requires
            self matches TinyMapEntry::Vacant { inner, key, idx } ==> idx <= storage_items(
                *inner,
            ).len(),
        ensures
            match self {
                TinyMapEntry::Occupied(slot) => {
                    &&& *r == slot.1
                    &&& *final(slot) == (slot.0, *final(r))
                },
                TinyMapEntry::Vacant { inner, key, idx } => {
                    &&& *r == default
                    &&& storage_items(*final(inner)) == storage_items(*inner).insert(
                        idx as int,
                        (key, *final(r)),
                    )
                },
            },
    {
        match self {
            TinyMapEntry::Occupied(slot) => &mut slot.1,
            TinyMapEntry::Vacant { inner, key, idx } => {
                storage_insert(inner, idx, (key, default));
                let slot = storage_index_mut(inner, idx);
                &mut slot.1
            },
        }
    }
}

} // verus!
