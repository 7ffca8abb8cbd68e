use vstd::prelude::*;
use vstd::std_specs::hash::group_hash_axioms;
use std::collections::HashMap;

verus! {

broadcast use {group_hash_axioms, vstd::seq_lib::group_seq_properties};

/// Errors of the store's operations.
#[derive(Clone, Copy, Debug, PartialEq, Eq, Structural)]
pub enum StoreError {
    /// The id does not fit the native addressing width.
    IdDoesNotFitUsize,
    /// The id is past the dense length, or names no payload, in a strict lookup.
    IdOutOfBounds,
    /// An insert past the dense length without permission to leave holes.
    OutOfOrderId,
}

/// An opaque payload together with its identity token, captured once by the
/// caller and stored verbatim. Payloads with the same key are the same object.
pub struct Payload<O> {
    pub key: usize,
    pub obj: O,
}

/// What the store holds for an id: a geometric key and an optional payload.
pub struct Entry<G, O> {
    pub geom: G,
    pub obj: Option<Payload<O>>,
}

/// Identity token of the payload held in a slot, if any.
pub open spec fn key_of<G, O>(s: Option<Entry<G, O>>) -> Option<usize> {
    match s {
        Some(e) => match e.obj {
            Some(p) => Some(p.key),
            None => None,
        },
        None => None,
    }
}

/// Number of occupied slots.
pub open spec fn occupied<E>(s: Seq<Option<E>>) -> nat
    decreases s.len(),
{
    if s.len() == 0 {
        0
    } else {
        occupied(s.drop_last()) + if s.last().is_some() {
            1nat
        } else {
            0nat
        }
    }
}

/// The slot at `id`, or a hole past the end.
pub open spec fn slot_at<E>(s: Seq<Option<E>>, id: int) -> Option<E> {
    if 0 <= id < s.len() {
        s[id]
    } else {
        None
    }
}

/// `id` holds a payload with identity `key`.
pub open spec fn holds_key<G, O>(s: Seq<Option<Entry<G, O>>>, id: int, key: usize) -> bool {
    0 <= id < s.len() && key_of(s[id]) == Some(key)
}

pub proof fn lemma_occupied_le<E>(s: Seq<Option<E>>)
    ensures
        occupied(s) <= s.len(),
    decreases s.len(),
{
    if s.len() > 0 {
        lemma_occupied_le(s.drop_last());
    }
}

pub proof fn lemma_occupied_push<E>(s: Seq<Option<E>>, v: Option<E>)
    ensures
        occupied(s.push(v)) == occupied(s) + if v.is_some() {
            1nat
        } else {
            0nat
        },
{
    assert(s.push(v).drop_last() =~= s);
}

pub proof fn lemma_occupied_update<E>(s: Seq<Option<E>>, i: int, v: Option<E>)
    requires
        0 <= i < s.len(),
    ensures
        occupied(s.update(i, v)) + (if s[i].is_some() {
            1nat
        } else {
            0nat
        }) == occupied(s) + (if v.is_some() {
            1nat
        } else {
            0nat
        }),
    decreases s.len(),
{
    if i == s.len() - 1 {
        assert(s.update(i, v).drop_last() =~= s.drop_last());
    } else {
        lemma_occupied_update(s.drop_last(), i, v);
        assert(s.update(i, v).drop_last() =~= s.drop_last().update(i, v));
    }
}

/// The reverse index maps each identity to exactly the ids holding it, each
/// bucket non-empty and without repeats.
pub open spec fn rev_ok<G, O>(m: Map<usize, Vec<usize>>, s: Seq<Option<Entry<G, O>>>) -> bool {
    &&& forall|k: usize, x: usize|
        #![trigger m[k]@.contains(x)]
        #![trigger holds_key(s, x as int, k)]
        (m.contains_key(k) && m[k]@.contains(x)) <==> holds_key(s, x as int, k)
    &&& forall|k: usize| #[trigger] m.contains_key(k) ==> m[k]@.len() > 0 && m[k]@.no_duplicates()
}

/// Replacing a live entry by one with the same payload identity keeps the reverse
/// index and the live count right.
pub proof fn lemma_same_key_update<G, O>(m: Map<usize, Vec<usize>>, s: Seq<Option<Entry<G, O>>>, i: int, e: Entry<G, O>)
    requires
        rev_ok(m, s),
        0 <= i < s.len(),
        s[i].is_some(),
    ensures
        key_of(s[i]) == key_of(Some(e)) ==> rev_ok(m, s.update(i, Some(e))),
        occupied(s.update(i, Some(e))) == occupied(s),
{
    lemma_occupied_update(s, i, Some(e));
    let s2 = s.update(i, Some(e));
    if key_of(s[i]) == key_of(Some(e)) {
        assert forall|k: usize, x: usize| holds_key(s2, x as int, k) == holds_key(s, x as int, k) by {
            if x as int != i && x < s.len() {
                assert(s2[x as int] == s[x as int]);
            }
        }
    }
}

/// A dense store of entries addressed by id, with a LIFO list of freed ids and a
/// reverse index from payload identity to ids.
pub struct ObjStore<G, O> {
    entries: Vec<Option<Entry<G, O>>>,
    free: Vec<usize>,
    obj_to_ids: HashMap<usize, Vec<usize>>,
    live_len: usize,
}

/// Does `v` hold `x`?
fn vec_has(v: &Vec<usize>, x: usize) -> (r: bool)
    ensures
        r == v@.contains(x),
{
    let mut i: usize = 0;
    while i < v.len()
        invariant
            0 <= i <= v@.len(),
            forall|j: int| 0 <= j < i ==> v@[j] != x,
        decreases v@.len() - i,
    {
        if v[i] == x {
            return true;
        }
        i += 1;
    }
    false
}

/// Adds `id` to the bucket of `key`.
fn add_rev_mapping(m: &mut HashMap<usize, Vec<usize>>, key: usize, id: usize)
    requires
        forall|k: usize| #[trigger] old(m)@.contains_key(k) ==> old(m)@[k]@.no_duplicates(),
    ensures
        final(m)@.contains_key(key),
        forall|k: usize| k != key ==> #[trigger] final(m)@.contains_key(k) == old(m)@.contains_key(k),
        forall|k: usize| k != key && #[trigger] old(m)@.contains_key(k) ==> final(m)@[k] == old(m)@[k],
        forall|x: usize|
            #![trigger final(m)@[key]@.contains(x)]
            #![trigger old(m)@[key]@.contains(x)]
            final(m)@[key]@.contains(x) <==> (x == id || (old(m)@.contains_key(key) && old(m)@[key]@.contains(x))),
        final(m)@[key]@.len() > 0,
        final(m)@[key]@.no_duplicates(),
{
    match m.remove(&key) {
        Some(v) => {
            let mut v = v;
            if !vec_has(&v, id) {
                let ghost pre = v@;
                v.push(id);
                assert forall|x: usize| v@.contains(x) <==> (x == id || pre.contains(x)) by {
                    if v@.contains(x) && x != id {
                        let t = choose|t: int| 0 <= t < v@.len() && v@[t] == x;
                        assert(pre[t] == x);
                    }
                    if pre.contains(x) {
                        let t = choose|t: int| 0 <= t < pre.len() && pre[t] == x;
                        assert(v@[t] == x);
                    }
                    if x == id {
                        assert(v@[pre.len() as int] == x);
                    }
                }
            }
            m.insert(key, v);
        },
        None => {
            let mut v: Vec<usize> = Vec::new();
            v.push(id);
            m.insert(key, v);
        },
    }
}

/// Takes `id` out of the bucket of `key`, dropping the bucket when it empties.
fn remove_rev_mapping(m: &mut HashMap<usize, Vec<usize>>, key: usize, id: usize)
    requires
        forall|k: usize| #[trigger] old(m)@.contains_key(k) ==> old(m)@[k]@.no_duplicates(),
    ensures
        forall|k: usize| k != key ==> #[trigger] final(m)@.contains_key(k) == old(m)@.contains_key(k),
        forall|k: usize| k != key && #[trigger] old(m)@.contains_key(k) ==> final(m)@[k] == old(m)@[k],
        final(m)@.contains_key(key) ==> old(m)@.contains_key(key),
        final(m)@.contains_key(key) ==> final(m)@[key]@.len() > 0 && final(m)@[key]@.no_duplicates(),
        forall|x: usize|
            #![trigger final(m)@[key]@.contains(x)]
            #![trigger old(m)@[key]@.contains(x)]
            (final(m)@.contains_key(key) && final(m)@[key]@.contains(x)) <==> (x != id && old(m)@.contains_key(key) && old(m)@[key]@.contains(x)),
{
    match m.remove(&key) {
        Some(v) => {
            let mut kept: Vec<usize> = Vec::new();
            let mut i: usize = 0;
            while i < v.len()
                invariant
                    0 <= i <= v@.len(),
                    v@.no_duplicates(),
                    kept@.no_duplicates(),
                    forall|y: usize| #[trigger] kept@.contains(y) <==> (y != id && v@.take(i as int).contains(y)),
                decreases v@.len() - i,
            {
                let x = v[i];
                let ghost before = kept@;
                assert(v@.take(i + 1) =~= v@.take(i as int).push(x));
                if x != id {
                    assert(!v@.take(i as int).contains(x)) by {
                        if v@.take(i as int).contains(x) {
                            let t = choose|t: int| 0 <= t < i && v@.take(i as int)[t] == x;
                            assert(v@[t] == v@[i as int]);
                        }
                    }
                    assert(!before.contains(x));
                    kept.push(x);
                    assert forall|a: int, b: int| 0 <= a < kept@.len() && 0 <= b < kept@.len() && a != b implies kept@[a] != kept@[b] by {
                        if a == before.len() {
                            assert(before.contains(kept@[b]));
                        } else if b == before.len() {
                            assert(before.contains(kept@[a]));
                        } else {
                            assert(before[a] != before[b]);
                        }
                    }
                    assert forall|y: usize| kept@.contains(y) <==> (y != id && v@.take(i + 1).contains(y)) by {
                        if kept@.contains(y) && y != x {
                            let t = choose|t: int| 0 <= t < kept@.len() && kept@[t] == y;
                            assert(before[t] == y);
                        }
                        if before.contains(y) {
                            let t = choose|t: int| 0 <= t < before.len() && before[t] == y;
                            assert(kept@[t] == y);
                        }
                        if y == x {
                            assert(kept@[before.len() as int] == y);
                        }
                    }
                }
                i += 1;
            }
            assert(v@.take(i as int) =~= v@);
            assert(old(m)@.contains_key(key) && old(m)@[key] == v);
            if kept.len() > 0 {
                m.insert(key, kept);
            } else {
                assert forall|y: usize| !(y != id && v@.contains(y)) by {
                    if y != id && v@.contains(y) {
                        assert(kept@.contains(y));
                    }
                }
            }
        },
        None => {},
    }
}

/// The slots after placing `e` at `id`: slots between the old end and `id` become holes.
pub open spec fn placed<G, O>(s: Seq<Option<Entry<G, O>>>, id: int, e: Entry<G, O>) -> Seq<Option<Entry<G, O>>> {
    Seq::new(
        if id < s.len() { s.len() } else { (id + 1) as nat },
        |j: int| if j == id { Some(e) } else { slot_at(s, j) },
    )
}

/// Converts an id to a native index.
fn u64_to_usize(id: u64) -> (r: Result<usize, StoreError>)
    ensures
        id <= usize::MAX ==> r == Ok::<usize, StoreError>(id as usize),
        id > usize::MAX ==> r == Err::<usize, StoreError>(StoreError::IdDoesNotFitUsize),
{
    if id > (usize::MAX as u64) {
        Err(StoreError::IdDoesNotFitUsize)
    } else {
        Ok(id as usize)
    }
}

/// Identity token of an optional payload.
fn key_of_payload<O>(obj: &Option<Payload<O>>) -> (r: Option<usize>)
    ensures
        r == match obj {
            Some(p) => Some(p.key),
            None => None::<usize>,
        },
{
    match obj {
        Some(p) => Some(p.key),
        None => None,
    }
}


/// The payload at `id`, if the slot is live and holds one.
pub open spec fn payload_at<G, O>(s: Seq<Option<Entry<G, O>>>, id: int) -> Option<Payload<O>> {
    match slot_at(s, id) {
        Some(e) => e.obj,
        None => None,
    }
}

/// The slots with every entry holding identity `key` turned into a hole.
pub open spec fn without_key<G, O>(s: Seq<Option<Entry<G, O>>>, key: usize) -> Seq<Option<Entry<G, O>>> {
    Seq::new(s.len(), |x: int| if key_of(s[x]) == Some(key) { None } else { s[x] })
}

/// An id that a gather refuses: it does not fit the native width, or, in strict
/// mode, names no payload.
pub open spec fn gather_bad<G, O>(s: Seq<Option<Entry<G, O>>>, id: u64, strict: bool) -> bool {
    id > usize::MAX || (strict && payload_at(s, id as int).is_none())
}

/// `v` is in strictly ascending order.
pub open spec fn strictly_ascending(v: Seq<u64>) -> bool {
    forall|a: int, b: int| 0 <= a < b < v.len() ==> v[a] < v[b]
}

/// Relies on `slice::sort_unstable`: the same elements, in ascending order.
#[verifier::external_body]
fn sort_ids(v: &mut Vec<usize>)
    ensures
        final(v)@.to_multiset() == old(v)@.to_multiset(),
        forall|a: int, b: int| 0 <= a < b < final(v)@.len() ==> final(v)@[a] <= final(v)@[b],
{
    v.sort_unstable();
}

/// Sorts a bucket of distinct ids into strictly ascending order.
fn sorted_bucket(v: &mut Vec<usize>)
    requires
        old(v)@.no_duplicates(),
    ensures
        forall|x: usize| #[trigger] final(v)@.contains(x) <==> old(v)@.contains(x),
        forall|a: int, b: int| 0 <= a < b < final(v)@.len() ==> final(v)@[a] < final(v)@[b],
        final(v)@.len() == old(v)@.len(),
{
    let ghost before = v@;
    sort_ids(v);
    proof {
        broadcast use vstd::seq_lib::group_to_multiset_ensures;
        before.lemma_multiset_has_no_duplicates();
        v@.lemma_multiset_has_no_duplicates_conv();
        assert(v@.len() == v@.to_multiset().len());
        assert(before.len() == before.to_multiset().len());
        assert forall|x: usize| #[trigger] v@.contains(x) <==> before.contains(x) by {
            assert(v@.contains(x) <==> v@.to_multiset().count(x) > 0);
            assert(before.contains(x) <==> before.to_multiset().count(x) > 0);
        }
    }
}

/// The free list with `v` taken off, when it is there.
pub open spec fn drop_id(f: Seq<usize>, v: usize) -> Seq<usize> {
    if f.contains(v) {
        f.remove(choose|j: int| 0 <= j < f.len() && f[j] == v)
    } else {
        f
    }
}

/// Takes `v` off a free list without repeats.
fn take_off_free(free: &mut Vec<usize>, v: usize)
    requires
        old(free)@.no_duplicates(),
    ensures
        final(free)@ == drop_id(old(free)@, v),
        final(free)@.no_duplicates(),
        forall|x: usize| #[trigger] final(free)@.contains(x) <==> (old(free)@.contains(x) && x != v),
{
    let mut j: usize = 0;
    while j < free.len()
        invariant
            0 <= j <= free@.len(),
            free@ == old(free)@,
            free@.no_duplicates(),
            forall|t: int| 0 <= t < j ==> free@[t] != v,
        decreases free@.len() - j,
    {
        if free[j] == v {
            let ghost f0 = free@;
            proof {
                let c = choose|t: int| 0 <= t < f0.len() && f0[t] == v;
                assert(f0[j as int] == v);
                assert(c == j);
            }
            free.remove(j);
            assert forall|x: usize| #[trigger] free@.contains(x) <==> (f0.contains(x) && x != v) by {
                if free@.contains(x) {
                    let t = choose|t: int| 0 <= t < free@.len() && free@[t] == x;
                    if t < j { assert(f0[t] == x); } else { assert(f0[t + 1] == x); }
                }
                if f0.contains(x) && x != v {
                    let t = choose|t: int| 0 <= t < f0.len() && f0[t] == x;
                    if t < j { assert(free@[t] == x); } else { assert(t != j); assert(free@[t - 1] == x); }
                }
            }
            assert forall|a: int, b: int| 0 <= a < free@.len() && 0 <= b < free@.len() && a != b implies free@[a] != free@[b] by {
                let a0 = if a < j { a } else { a + 1 };
                let b0 = if b < j { b } else { b + 1 };
                assert(free@[a] == f0[a0] && free@[b] == f0[b0]);
            }
            return;
        }
        j += 1;
    }
    assert(!free@.contains(v));
}

impl<G, O> ObjStore<G, O> {
    /// The slots by id: an entry, or a hole.
    pub closed spec fn slots(&self) -> Seq<Option<Entry<G, O>>> {
        self.entries@
    }

    /// Freed ids, the most recent last.
    pub closed spec fn free_ids(&self) -> Seq<usize> {
        self.free@
    }

    /// The store's invariant.
    pub closed spec fn wf(&self) -> bool {
        &&& self.live_len == occupied(self.entries@)
        &&& forall|j: int| 0 <= j < self.free@.len() ==> (#[trigger] self.free@[j]) < self.entries@.len()
        &&& forall|j: int| 0 <= j < self.free@.len() ==> self.entries@[#[trigger] self.free@[j] as int].is_none()
        &&& self.free@.no_duplicates()
        &&& rev_ok(self.obj_to_ids@, self.entries@)
    }

    /// An empty store.
    pub fn new() -> (s: Self)
        ensures
            s.wf(),
            s.slots() == Seq::<Option<Entry<G, O>>>::empty(),
            s.free_ids() == Seq::<usize>::empty(),
    {
        let s = ObjStore { entries: Vec::new(), free: Vec::new(), obj_to_ids: HashMap::new(), live_len: 0 };
        assert(s.obj_to_ids@ =~= Map::<usize, Vec<usize>>::empty());
        s
    }

    /// An empty store with room reserved for `n` slots.
    pub fn with_capacity(n: usize) -> (s: Self)
        ensures
            s.wf(),
            s.slots() == Seq::<Option<Entry<G, O>>>::empty(),
            s.free_ids() == Seq::<usize>::empty(),
    {
        let s = ObjStore { entries: Vec::with_capacity(n), free: Vec::new(), obj_to_ids: HashMap::new(), live_len: 0 };
        assert(s.obj_to_ids@ =~= Map::<usize, Vec<usize>>::empty());
        s
    }

    /// Number of live entries.
    pub fn len(&self) -> (n: usize)
        requires
            self.wf(),
        ensures
            n == occupied(self.slots()),
    {
        self.live_len
    }

    /// Whether no entry is live.
    pub fn is_empty(&self) -> (r: bool)
        requires
            self.wf(),
        ensures
            r == (occupied(self.slots()) == 0),
    {
        self.live_len == 0
    }

    /// Dense length: every valid id is below it.
    pub fn dense_len(&self) -> (n: usize)
        ensures
            n == self.slots().len(),
    {
        self.entries.len()
    }

    /// Removes every entry and forgets the freed ids.
    pub fn clear(&mut self)
        ensures
            final(self).wf(),
            final(self).slots() == Seq::<Option<Entry<G, O>>>::empty(),
            final(self).free_ids() == Seq::<usize>::empty(),
    {
        self.entries.clear();
        self.free.clear();
        self.obj_to_ids.clear();
        self.live_len = 0;
        assert(self.obj_to_ids@ =~= Map::<usize, Vec<usize>>::empty());
    }

    /// Whether `id` addresses a live entry.
    pub fn contains_id(&self, id: u64) -> (r: bool)
        ensures
            r == slot_at(self.slots(), id as int).is_some(),
    {
        let n = self.entries.len();
        match u64_to_usize(id) {
            Ok(i) => i < n && self.entries[i].is_some(),
            Err(_) => false,
        }
    }

    /// Whether some live entry holds a payload with identity `key`.
    pub fn contains_obj(&self, key: usize) -> (r: bool)
        requires
            self.wf(),
        ensures
            r == exists|i: int| holds_key(self.slots(), i, key),
    {
        let r = self.obj_to_ids.contains_key(&key);
        let _dense = self.entries.len();
        proof {
            let m = self.obj_to_ids@;
            if r {
                assert(m.contains_key(key));
                assert(m[key]@.len() > 0);
                let x = m[key]@[0];
                assert(m[key]@.contains(x));
                assert(holds_key(self.entries@, x as int, key));
                assert(holds_key(self.slots(), x as int, key));
            }
            if exists|i: int| holds_key(self.entries@, i, key) {
                let i = choose|i: int| holds_key(self.entries@, i, key);
                let x = i as usize;
                assert(holds_key(self.entries@, x as int, key));
            }
        }
        r
    }

    /// Picks an id for a new entry: the most recently freed one, else the dense length.
    pub fn alloc_id(&mut self) -> (id: u64)
        requires
            old(self).wf(),
        ensures
            final(self).wf(),
            final(self).slots() == old(self).slots(),
            old(self).free_ids().len() > 0 ==> id == old(self).free_ids().last() && final(self).free_ids()
                == old(self).free_ids().drop_last(),
            old(self).free_ids().len() == 0 ==> id == old(self).slots().len() && final(self).free_ids()
                == old(self).free_ids(),
            id <= old(self).slots().len(),
            id == old(self).slots().len() || slot_at(old(self).slots(), id as int).is_none(),
    {
        match self.free.pop() {
            Some(i) => {
                assert(old(self).free@[old(self).free@.len() - 1] == i);
                assert forall|j: int| 0 <= j < self.free@.len() implies self.entries@[#[trigger] self.free@[j] as int].is_none() by {
                    assert(self.free@[j] == old(self).free@[j]);
                }
                assert forall|a: int, b: int| 0 <= a < self.free@.len() && 0 <= b < self.free@.len() && a != b implies self.free@[a] != self.free@[b] by {
                    assert(self.free@[a] == old(self).free@[a] && self.free@[b] == old(self).free@[b]);
                }
                i as u64
            },
            None => self.entries.len() as u64,
        }
    }

    /// Places an entry at `id`, replacing what is there. An id past the dense length
    /// is refused unless `handle_out_of_order`, which fills the gap with holes.
    pub fn insert_at(&mut self, id: u64, geom: G, obj: Option<Payload<O>>, handle_out_of_order: bool) -> (r: Result<(), StoreError>)
        requires
            old(self).wf(),
        ensures
            final(self).wf(),
            r.is_err() ==> final(self).free_ids() == old(self).free_ids(),
            r.is_ok() ==> final(self).free_ids() == drop_id(old(self).free_ids(), id as usize),
            id > usize::MAX ==> r == Err::<(), StoreError>(StoreError::IdDoesNotFitUsize),
            id <= usize::MAX && id > old(self).slots().len() && !handle_out_of_order ==> r == Err::<(), StoreError>(StoreError::OutOfOrderId),
            r.is_err() ==> final(self).slots() == old(self).slots(),
            (id <= usize::MAX && (id <= old(self).slots().len() || handle_out_of_order)) ==> r == Ok::<(), StoreError>(()) && final(self).slots() == placed(old(self).slots(), id as int, (Entry { geom, obj })),
    {
        let ghost e = Entry { geom, obj };
        let i = match u64_to_usize(id) {
            Ok(i) => i,
            Err(err) => return Err(err),
        };
        if i > self.entries.len() {
            if !handle_out_of_order {
                return Err(StoreError::OutOfOrderId);
            }
            while self.entries.len() < i
                invariant
                    old(self).entries@.len() <= self.entries@.len() <= i,
                    forall|j: int| 0 <= j < self.entries@.len() ==> #[trigger] self.entries@[j] == slot_at(old(self).entries@, j),
                    self.live_len == occupied(self.entries@),
                    forall|j: int| 0 <= j < self.free@.len() ==> (#[trigger] self.free@[j]) < self.entries@.len(),
                    rev_ok(self.obj_to_ids@, self.entries@),
                    self.free@ == old(self).free@,
                    forall|j: int| 0 <= j < self.free@.len() ==> self.entries@[#[trigger] self.free@[j] as int].is_none(),
                    self.free@.no_duplicates(),
                decreases i - self.entries@.len(),
            {
                let ghost pre = self.entries@;
                proof { lemma_occupied_push(pre, None); }
                self.entries.push(None);
                proof {
                    let s2 = self.entries@;
                    let m = self.obj_to_ids@;
                    assert forall|k: usize, x: usize|
                        #![trigger m[k]@.contains(x)]
                        #![trigger holds_key(s2, x as int, k)]
                        (m.contains_key(k) && m[k]@.contains(x)) <==> holds_key(s2, x as int, k) by {
                        if x < pre.len() {
                            assert(s2[x as int] == pre[x as int]);
                        }
                        assert(holds_key(s2, x as int, k) == holds_key(pre, x as int, k));
                    }
                    assert forall|j: int| 0 <= j < self.free@.len() implies s2[#[trigger] self.free@[j] as int].is_none() by {
                        assert(s2[self.free@[j] as int] == pre[self.free@[j] as int]);
                    }
                }
            }
        }
        let ghost mid = self.entries@;
        let ghost m_mid = self.obj_to_ids@;
        let ghost m_free = self.free@;
        let new_key = key_of_payload(&obj);
        let entry = Entry { geom, obj };
        assert(entry == e);
        if i == self.entries.len() {
            if let Some(k) = new_key {
                add_rev_mapping(&mut self.obj_to_ids, k, i);
            }
            proof {
                lemma_occupied_push(mid, Some(e));
                lemma_occupied_le(mid);
            }
            self.entries.push(Some(entry));
            let n = self.entries.len();
            assert(n == mid.len() + 1);
            self.live_len = self.live_len + 1;
            proof {
                let s2 = self.entries@;
                assert forall|k: usize, x: usize|
                    #![trigger self.obj_to_ids@[k]@.contains(x)]
                    #![trigger holds_key(s2, x as int, k)]
                    (self.obj_to_ids@.contains_key(k) && self.obj_to_ids@[k]@.contains(x)) <==> holds_key(s2, x as int, k) by {
                    if x < mid.len() {
                        assert(s2[x as int] == mid[x as int]);
                        assert(holds_key(s2, x as int, k) == holds_key(mid, x as int, k));
                    }
                }
                assert(s2 =~= placed(old(self).entries@, i as int, e));
                assert forall|j: int| 0 <= j < self.free@.len() implies s2[#[trigger] self.free@[j] as int].is_none() by {
                    assert(s2[self.free@[j] as int] == mid[self.free@[j] as int]);
                }
                assert(!self.free@.contains(i));
                assert(drop_id(old(self).free@, i) == old(self).free@);
            }
            return Ok(());
        }
        let old_slot = self.entries[i].take();
        let was_hole = old_slot.is_none();
        let old_key = match &old_slot {
            Some(oe) => key_of_payload(&oe.obj),
            None => None,
        };
        assert(old_key == key_of(mid[i as int]));
        if let Some(k) = old_key {
            remove_rev_mapping(&mut self.obj_to_ids, k, i);
        }
        let ghost m1 = self.obj_to_ids@;
        if let Some(k) = new_key {
            add_rev_mapping(&mut self.obj_to_ids, k, i);
        }
        self.entries.set(i, Some(entry));
        proof {
            lemma_occupied_update(mid, i as int, Some(e));
            lemma_occupied_le(self.entries@);
            assert(self.entries@ =~= mid.update(i as int, Some(e)));
        }
        if was_hole {
            self.live_len = self.live_len + 1;
            take_off_free(&mut self.free, i);
        } else {
            assert(!self.free@.contains(i)) by {
                if self.free@.contains(i) {
                    let t = choose|t: int| 0 <= t < self.free@.len() && self.free@[t] == i;
                    assert(mid[self.free@[t] as int].is_none());
                }
            }
        }
        proof {
            let s2 = self.entries@;
            let m0 = old(self).obj_to_ids@;
            assert forall|k: usize, x: usize|
                #![trigger self.obj_to_ids@[k]@.contains(x)]
                #![trigger holds_key(s2, x as int, k)]
                (self.obj_to_ids@.contains_key(k) && self.obj_to_ids@[k]@.contains(x)) <==> holds_key(s2, x as int, k) by {
                let m2 = self.obj_to_ids@;
                if x != i {
                    if x < mid.len() {
                        assert(s2[x as int] == mid[x as int]);
                    }
                    assert(holds_key(s2, x as int, k) == holds_key(mid, x as int, k));
                    if old_key == Some(k) {
                        assert((m1.contains_key(k) && m1[k]@.contains(x)) == (x != i && m_mid.contains_key(k) && m_mid[k]@.contains(x)));
                    } else {
                        assert(m1.contains_key(k) == m_mid.contains_key(k));
                        if m1.contains_key(k) {
                            assert(m1[k] == m_mid[k]);
                        }
                    }
                    assert((m1.contains_key(k) && m1[k]@.contains(x)) == (m_mid.contains_key(k) && m_mid[k]@.contains(x)));
                    assert((m2.contains_key(k) && m2[k]@.contains(x)) == (m1.contains_key(k) && m1[k]@.contains(x)));
                } else {
                    assert(holds_key(s2, x as int, k) == (new_key == Some(k)));
                    assert(holds_key(mid, x as int, k) == (old_key == Some(k)));
                    assert(!(m1.contains_key(k) && m1[k]@.contains(x)) || new_key == Some(k));
                }
            }
            assert(s2 =~= placed(old(self).entries@, i as int, e));
            assert forall|j: int| 0 <= j < self.free@.len() implies (#[trigger] self.free@[j]) < s2.len() && s2[self.free@[j] as int].is_none() by {
                let x = self.free@[j];
                assert(self.free@.contains(x));
                assert(m_free.contains(x));
                let t = choose|t: int| 0 <= t < m_free.len() && m_free[t] == x;
                assert(m_free[t] == x);
                assert(x != i);
                assert(s2[x as int] == mid[x as int]);
            }
        }
        Ok(())
    }

    /// Stores an entry under a fresh id (see `alloc_id`) and returns the id.
    pub fn insert(&mut self, geom: G, obj: Option<Payload<O>>) -> (id: u64)
        requires
            old(self).wf(),
        ensures
            final(self).wf(),
            final(self).slots() == placed(old(self).slots(), id as int, (Entry { geom, obj })),
            slot_at(old(self).slots(), id as int).is_none(),
            occupied(final(self).slots()) == occupied(old(self).slots()) + 1,
            old(self).free_ids().len() > 0 ==> id == old(self).free_ids().last() && final(self).free_ids()
                == old(self).free_ids().drop_last(),
            old(self).free_ids().len() == 0 ==> id == old(self).slots().len() && final(self).free_ids()
                == old(self).free_ids(),
    {
        let ghost s0 = self.entries@;
        let ghost e = Entry { geom, obj };
        let _dense = self.dense_len();
        let id = self.alloc_id();
        let ghost f1 = self.free@;
        let _placed = self.insert_at(id, geom, obj, false);
        proof {
            assert(!f1.contains(id as usize)) by {
                if f1.contains(id as usize) {
                    let t = choose|t: int| 0 <= t < f1.len() && f1[t] == id as usize;
                    if old(self).free@.len() > 0 {
                        assert(old(self).free@[t] == f1[t]);
                        assert(old(self).free@[old(self).free@.len() - 1] == id as usize);
                    }
                }
            }
            if id < s0.len() {
                lemma_occupied_update(s0, id as int, Some(e));
                assert(placed(s0, id as int, e) =~= s0.update(id as int, Some(e)));
            } else {
                lemma_occupied_push(s0, Some(e));
                assert(placed(s0, id as int, e) =~= s0.push(Some(e)));
            }
        }
        id
    }

    /// The entry at `id`, if live.
    pub fn get(&self, id: u64) -> (r: Option<&Entry<G, O>>)
        ensures
            match r {
                Some(e) => slot_at(self.slots(), id as int) == Some(*e),
                None => slot_at(self.slots(), id as int).is_none(),
            },
    {
        let n = self.entries.len();
        match u64_to_usize(id) {
            Ok(i) => if i < n {
                self.entries[i].as_ref()
            } else {
                None
            },
            Err(_) => None,
        }
    }

    /// The entry at `id`, if live, for changes in place. The store stays well formed
    /// when the change keeps the payload's identity.
    pub fn get_mut(&mut self, id: u64) -> (r: Option<&mut Entry<G, O>>)
        requires
            old(self).wf(),
        ensures
            r matches Some(e) ==> slot_at(old(self).slots(), id as int) == Some(*e),
            r matches Some(e) ==> final(self).slots() == old(self).slots().update(id as int, Some(*final(e))),
            r is None ==> slot_at(old(self).slots(), id as int).is_none(),
            r is None ==> final(self).slots() == old(self).slots(),
            r is None ==> final(self).wf(),
            r matches Some(e) ==> (key_of(Some(*final(e))) == key_of(Some(*e)) ==> final(self).wf()),
            final(self).free_ids() == old(self).free_ids(),
    {
        let n = self.entries.len();
        let i = match u64_to_usize(id) {
            Ok(i) => i,
            Err(_) => return None,
        };
        if i >= n {
            return None;
        }
        let ghost s0 = self.entries@;
        let r = self.entries[i].as_mut();
        proof {
            if r is Some {
                lemma_same_key_update(self.obj_to_ids@, s0, i as int, *final(r->0));
            } else {
                assert(s0.update(i as int, None) =~= s0);
            }
        }
        r
    }

    /// The payload at `id`, if the entry is live and holds one.
    pub fn get_obj(&self, id: u64) -> (r: Option<&Payload<O>>)
        ensures
            match r {
                Some(p) => payload_at(self.slots(), id as int) == Some(*p),
                None => payload_at(self.slots(), id as int).is_none(),
            },
    {
        match self.get(id) {
            Some(e) => e.obj.as_ref(),
            None => None,
        }
    }

    /// Removes the live entry at `id` and frees the id; a hole or an id out of range
    /// changes nothing.
    pub fn pop_id(&mut self, id: u64) -> (r: Option<Entry<G, O>>)
        requires
            old(self).wf(),
        ensures
            final(self).wf(),
            r == slot_at(old(self).slots(), id as int),
            r.is_some() ==> final(self).slots() == old(self).slots().update(id as int, None)
                && final(self).free_ids() == old(self).free_ids().push(id as usize),
            r.is_none() ==> final(self).slots() == old(self).slots() && final(self).free_ids()
                == old(self).free_ids(),
    {
        let n = self.entries.len();
        let i = match u64_to_usize(id) {
            Ok(i) => i,
            Err(_) => return None,
        };
        if i >= n || self.entries[i].is_none() {
            return None;
        }
        let ghost s0 = self.entries@;
        let ghost m0 = self.obj_to_ids@;
        let taken = self.entries[i].take();
        let old_key = match &taken {
            Some(oe) => key_of_payload(&oe.obj),
            None => None,
        };
        assert(self.entries@ =~= s0.update(i as int, None));
        if let Some(k) = old_key {
            remove_rev_mapping(&mut self.obj_to_ids, k, i);
        }
        self.free.push(i);
        proof {
            lemma_occupied_update(s0, i as int, None);
        }
        self.live_len = self.live_len - 1;
        proof {
            let s2 = self.entries@;
            let m2 = self.obj_to_ids@;
            assert forall|k: usize, x: usize|
                #![trigger m2[k]@.contains(x)]
                #![trigger holds_key(s2, x as int, k)]
                (m2.contains_key(k) && m2[k]@.contains(x)) <==> holds_key(s2, x as int, k) by {
                if x != i {
                    assert(holds_key(s2, x as int, k) == holds_key(s0, x as int, k));
                    if old_key == Some(k) {
                        assert((m2.contains_key(k) && m2[k]@.contains(x)) == (m0.contains_key(k) && m0[k]@.contains(x)));
                    } else {
                        assert(m2.contains_key(k) == m0.contains_key(k));
                    }
                } else {
                    assert(!holds_key(s2, x as int, k));
                    assert(holds_key(s0, x as int, k) == (old_key == Some(k)));
                }
            }
            assert forall|j: int| 0 <= j < self.free@.len() implies (#[trigger] self.free@[j]) < self.entries@.len() by {
                if j < old(self).free@.len() {
                    assert(self.free@[j] == old(self).free@[j]);
                }
            }
        }
        taken
    }

    /// The smallest id holding a payload with identity `key`.
    pub fn min_id_for_obj(&self, key: usize) -> (r: Option<u64>)
        requires
            self.wf(),
        ensures
            r.is_none() <==> !exists|i: int| holds_key(self.slots(), i, key),
            r matches Some(m) ==> holds_key(self.slots(), m as int, key) && forall|i: int|
                holds_key(self.slots(), i, key) ==> m <= i,
    {
        let _dense = self.entries.len();
        match self.obj_to_ids.get(&key) {
            None => {
                proof {
                    if exists|i: int| holds_key(self.slots(), i, key) {
                        let i = choose|i: int| holds_key(self.slots(), i, key);
                        assert(holds_key(self.entries@, (i as usize) as int, key));
                    }
                }
                None
            },
            Some(v) => {
                let mut best = v[0];
                let mut j: usize = 1;
                while j < v.len()
                    invariant
                        1 <= j <= v@.len(),
                        v@.contains(best),
                        forall|t: int| 0 <= t < j ==> best <= #[trigger] v@[t],
                    decreases v@.len() - j,
                {
                    if v[j] < best {
                        best = v[j];
                    }
                    j += 1;
                }
                proof {
                    assert(self.obj_to_ids@[key] == *v);
                    assert(holds_key(self.entries@, best as int, key));
                    assert(holds_key(self.slots(), best as int, key));
                    assert forall|i: int| holds_key(self.slots(), i, key) implies best <= i by {
                        let x = i as usize;
                        assert(holds_key(self.entries@, x as int, key));
                        assert(v@.contains(x));
                    }
                }
                Some(best as u64)
            },
        }
    }

    /// Every id holding a payload with identity `key`, ascending.
    pub fn ids_for_obj_sorted(&self, key: usize) -> (r: Vec<u64>)
        requires
            self.wf(),
        ensures
            strictly_ascending(r@),
            forall|x: u64| #[trigger] r@.contains(x) <==> holds_key(self.slots(), x as int, key),
    {
        let _dense = self.entries.len();
        let mut ids = match self.obj_to_ids.get(&key) {
            Some(v) => v.clone(),
            None => {
                let out: Vec<u64> = Vec::new();
                proof {
                    assert forall|x: u64| #[trigger] out@.contains(x) <==> holds_key(self.slots(), x as int, key) by {
                        if holds_key(self.slots(), x as int, key) {
                            assert(holds_key(self.entries@, (x as usize) as int, key));
                        }
                    }
                }
                return out;
            },
        };
        assert(self.obj_to_ids@.contains_key(key));
        let ghost bucket = ids@;
        sorted_bucket(&mut ids);
        let mut out: Vec<u64> = Vec::new();
        let mut i: usize = 0;
        while i < ids.len()
            invariant
                0 <= i <= ids@.len(),
                out@.len() == i,
                forall|t: int| 0 <= t < i ==> #[trigger] out@[t] == ids@[t] as u64,
            decreases ids@.len() - i,
        {
            out.push(ids[i] as u64);
            i += 1;
        }
        proof {
            assert forall|x: u64| #[trigger] out@.contains(x) <==> holds_key(self.slots(), x as int, key) by {
                if out@.contains(x) {
                    let t = choose|t: int| 0 <= t < out@.len() && out@[t] == x;
                    assert(ids@.contains(ids@[t]));
                    assert(bucket.contains(x as usize));
                }
                if holds_key(self.slots(), x as int, key) {
                    let y = x as usize;
                    assert(holds_key(self.entries@, y as int, key));
                    assert(bucket.contains(y));
                    assert(ids@.contains(y));
                    let t = choose|t: int| 0 <= t < ids@.len() && ids@[t] == y;
                    assert(out@[t] == x);
                }
            }
        }
        out
    }


    /// Removes every entry holding a payload with identity `key`. Returns the removed
    /// `(id, entry)` pairs ascending by id; the ids go to the free list in that order.
    pub fn pop_by_object_all(&mut self, key: usize) -> (r: Vec<(u64, Entry<G, O>)>)
        requires
            old(self).wf(),
        ensures
            final(self).wf(),
            final(self).slots() == without_key(old(self).slots(), key),
            forall|a: int, b: int| 0 <= a < b < r@.len() ==> r@[a].0 < r@[b].0,
            forall|j: int| 0 <= j < r@.len() ==> holds_key(old(self).slots(), #[trigger] r@[j].0 as int, key)
                && old(self).slots()[r@[j].0 as int] == Some(r@[j].1),
            forall|x: int| holds_key(old(self).slots(), x, key) ==> exists|j: int| 0 <= j < r@.len() && #[trigger] r@[j].0 == x,
            final(self).free_ids() == old(self).free_ids() + Seq::new(r@.len(), |j: int| r@[j].0 as usize),
    {
        let n = self.entries.len();
        let ghost s0 = self.entries@;
        let ghost m0 = self.obj_to_ids@;
        let ghost f0 = self.free@;
        let mut ids = match self.obj_to_ids.remove(&key) {
            Some(v) => v,
            None => {
                proof {
                    assert forall|x: int| 0 <= x < s0.len() implies key_of(#[trigger] s0[x]) != Some(key) by {
                        if key_of(s0[x]) == Some(key) {
                            assert(holds_key(s0, (x as usize) as int, key));
                        }
                    }
                    assert(without_key(s0, key) =~= s0);
                    assert(self.free@ =~= f0 + Seq::new(0, |j: int| 0usize));
                }
                return Vec::new();
            },
        };
        let ghost bucket = ids@;
        sorted_bucket(&mut ids);
        let mut out: Vec<(u64, Entry<G, O>)> = Vec::new();
        let mut t: usize = 0;
        while t < ids.len()
            invariant
                0 <= t <= ids@.len(),
                n == s0.len(),
                forall|a: int, b: int| 0 <= a < b < ids@.len() ==> ids@[a] < ids@[b],
                forall|x: usize| #[trigger] ids@.contains(x) <==> holds_key(s0, x as int, key),
                self.entries@.len() == s0.len(),
                forall|x: int| 0 <= x < s0.len() ==> #[trigger] self.entries@[x] == if ids@.take(t as int).contains(x as usize) {
                    None
                } else {
                    s0[x]
                },
                self.obj_to_ids@ == m0.remove(key),
                self.live_len == occupied(self.entries@),
                self.free@ == f0 + Seq::new(t as nat, |j: int| ids@[j]),
                out@.len() == t,
                forall|j: int| 0 <= j < t ==> (#[trigger] out@[j]).0 == ids@[j] as u64 && s0[ids@[j] as int] == Some(out@[j].1),
            decreases ids@.len() - t,
        {
            let i = ids[t];
            assert(ids@.contains(i));
            assert(!ids@.take(t as int).contains(i)) by {
                if ids@.take(t as int).contains(i) {
                    let a = choose|a: int| 0 <= a < t && ids@.take(t as int)[a] == i;
                    assert(ids@[a] < ids@[t as int]);
                }
            }
            let ghost s1 = self.entries@;
            assert(s1[i as int] == s0[i as int]);
            let taken = self.entries[i].take();
            proof {
                lemma_occupied_update(s1, i as int, None);
                assert(ids@.take(t + 1) =~= ids@.take(t as int).push(i));
            }
            match taken {
                Some(e) => {
                    self.free.push(i);
                    self.live_len = self.live_len - 1;
                    out.push((i as u64, e));
                },
                None => {},
            }
            t += 1;
            proof {
                assert(self.free@ =~= f0 + Seq::new(t as nat, |j: int| ids@[j]));
                assert forall|x: int| 0 <= x < s0.len() implies #[trigger] self.entries@[x] == if ids@.take(t as int).contains(x as usize) {
                    None
                } else {
                    s0[x]
                } by {
                    if x != i {
                        assert(ids@.take(t as int).contains(x as usize) == ids@.take(t - 1).contains(x as usize));
                    }
                }
            }
        }
        assert(ids@.take(t as int) =~= ids@);
        proof {
            let s2 = self.entries@;
            assert(s2 =~= without_key(s0, key));
            let m2 = self.obj_to_ids@;
            assert forall|k: usize, x: usize|
                #![trigger m2[k]@.contains(x)]
                #![trigger holds_key(s2, x as int, k)]
                (m2.contains_key(k) && m2[k]@.contains(x)) <==> holds_key(s2, x as int, k) by {
                if k != key {
                    assert(holds_key(s2, x as int, k) == holds_key(s0, x as int, k));
                }
            }
            assert forall|j: int| 0 <= j < self.free@.len() implies (#[trigger] self.free@[j]) < self.entries@.len() by {
                if j < f0.len() {
                    assert(self.free@[j] == f0[j]);
                } else {
                    assert(ids@.contains(ids@[j - f0.len()]));
                }
            }
            assert forall|x: int| holds_key(s0, x, key) implies exists|j: int| 0 <= j < out@.len() && #[trigger] out@[j].0 == x by {
                let y = x as usize;
                assert(holds_key(s0, y as int, key));
                assert(ids@.contains(y));
                let j = choose|j: int| 0 <= j < ids@.len() && ids@[j] == y;
                assert(out@[j].0 == x);
            }
            assert forall|j: int| 0 <= j < out@.len() implies holds_key(s0, #[trigger] out@[j].0 as int, key) by {
                assert(ids@.contains(ids@[j]));
            }
            assert(self.free@ =~= f0 + Seq::new(out@.len(), |j: int| out@[j].0 as usize));
        }
        out
    }

    /// Removes the entry at the smallest id holding a payload with identity `key`.
    pub fn pop_by_object_min(&mut self, key: usize) -> (r: Option<(u64, Entry<G, O>)>)
        requires
            old(self).wf(),
        ensures
            final(self).wf(),
            r.is_none() <==> !exists|i: int| holds_key(old(self).slots(), i, key),
            r.is_none() ==> final(self).slots() == old(self).slots() && final(self).free_ids() == old(self).free_ids(),
            r matches Some(pair) ==> {
                &&& holds_key(old(self).slots(), pair.0 as int, key)
                &&& forall|i: int| holds_key(old(self).slots(), i, key) ==> pair.0 <= i
                &&& old(self).slots()[pair.0 as int] == Some(pair.1)
                &&& final(self).slots() == old(self).slots().update(pair.0 as int, None)
                &&& final(self).free_ids() == old(self).free_ids().push(pair.0 as usize)
            },
    {
        match self.min_id_for_obj(key) {
            None => None,
            Some(id) => match self.pop_id(id) {
                Some(e) => Some((id, e)),
                None => None,
            },
        }
    }

    /// The payloads at `ids`, in order. In strict mode a hole, an id out of range or
    /// an entry without payload fails the call with `IdOutOfBounds`; otherwise such
    /// an id gives `None`.
    pub fn gather_objects_ref<'a>(&'a self, ids: &[u64], strict_no_holes: bool) -> (r: Result<Vec<Option<&'a Payload<O>>>, StoreError>)
        ensures
            r.is_ok() <==> forall|j: int| 0 <= j < ids@.len() ==> !gather_bad(self.slots(), #[trigger] ids@[j], strict_no_holes),
            r matches Ok(v) ==> v@.len() == ids@.len() && forall|j: int| 0 <= j < ids@.len() ==> match #[trigger] v@[j] {
                Some(p) => payload_at(self.slots(), ids@[j] as int) == Some(*p),
                None => payload_at(self.slots(), ids@[j] as int).is_none(),
            },
            r matches Err(e) ==> exists|j: int| {
                &&& 0 <= j < ids@.len()
                &&& #[trigger] gather_bad(self.slots(), ids@[j], strict_no_holes)
                &&& forall|t: int| 0 <= t < j ==> !gather_bad(self.slots(), #[trigger] ids@[t], strict_no_holes)
                &&& e == if ids@[j] > usize::MAX {
                    StoreError::IdDoesNotFitUsize
                } else {
                    StoreError::IdOutOfBounds
                }
            },
    {
        let mut out: Vec<Option<&'a Payload<O>>> = Vec::new();
        let mut j: usize = 0;
        while j < ids.len()
            invariant
                0 <= j <= ids@.len(),
                out@.len() == j,
                forall|t: int| 0 <= t < j ==> !gather_bad(self.slots(), #[trigger] ids@[t], strict_no_holes),
                forall|t: int| 0 <= t < j ==> match #[trigger] out@[t] {
                    Some(p) => payload_at(self.slots(), ids@[t] as int) == Some(*p),
                    None => payload_at(self.slots(), ids@[t] as int).is_none(),
                },
            decreases ids@.len() - j,
        {
            let id = ids[j];
            if let Err(e) = u64_to_usize(id) {
                assert(gather_bad(self.slots(), ids@[j as int], strict_no_holes));
                return Err(e);
            }
            let p = self.get_obj(id);
            if strict_no_holes && p.is_none() {
                assert(gather_bad(self.slots(), ids@[j as int], strict_no_holes));
                return Err(StoreError::IdOutOfBounds);
            }
            out.push(p);
            j += 1;
        }
        Ok(out)
    }

}


impl<G, O> Default for ObjStore<G, O> {
    fn default() -> (s: Self)
        ensures
            s.wf(),
            s.slots() == Seq::<Option<Entry<G, O>>>::empty(),
            s.free_ids() == Seq::<usize>::empty(),
    {
        Self::new()
    }
}

/// Freeing an id and then allocating gives that id back, before any id at or past
/// the dense length. `s1` is `s0` after `pop_id(x)` removed the entry `popped`, as
/// that call's contract states; `id` is what `alloc_id` then returned on `s1`.
pub proof fn law_freed_id_reused<G, O>(s0: ObjStore<G, O>, s1: ObjStore<G, O>, x: u64, popped: Option<Entry<G, O>>, id: u64)
    requires
        s0.wf(),
        popped == slot_at(s0.slots(), x as int),
        popped.is_some(),
        s1.slots() == s0.slots().update(x as int, None),
        s1.free_ids() == s0.free_ids().push(x as usize),
        s1.free_ids().len() > 0 ==> id == s1.free_ids().last(),
    ensures
        id == x,
        id < s0.slots().len(),
        slot_at(s1.slots(), id as int).is_none(),
{
    assert(s0.entries@.len() == s0.entries.len());
}

/// One payload identity stored at ids `a`, `b` and `c` and nowhere else: the
/// smallest id for it is the least of the three, and removing all entries for it
/// empties exactly those three slots and leaves no entry with that identity.
/// `m` is what `min_id_for_obj(key)` returned.
pub proof fn law_identity_bucket<G, O>(s: ObjStore<G, O>, key: usize, a: u64, b: u64, c: u64, m: u64)
    requires
        forall|i: int| holds_key(s.slots(), i, key) <==> (i == a || i == b || i == c),
        holds_key(s.slots(), m as int, key),
        forall|i: int| holds_key(s.slots(), i, key) ==> m <= i,
    ensures
        m == if a <= b && a <= c {
            a
        } else if b <= c {
            b
        } else {
            c
        },
        !exists|i: int| holds_key(without_key(s.slots(), key), i, key),
        forall|i: int|
            0 <= i < s.slots().len() ==> (without_key(s.slots(), key)[i] != s.slots()[i] <==> (i == a || i == b || i == c)),
{
    assert(holds_key(s.slots(), a as int, key));
    assert(holds_key(s.slots(), b as int, key));
    assert(holds_key(s.slots(), c as int, key));
    assert forall|i: int|
        0 <= i < s.slots().len() implies (without_key(s.slots(), key)[i] != s.slots()[i] <==> (i == a || i == b || i == c)) by {
        assert(holds_key(s.slots(), i, key) == (key_of(s.slots()[i]) == Some(key)));
    }
}

} // verus!
