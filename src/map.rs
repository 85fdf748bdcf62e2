//! An open-addressing hash map with linear probing and a per-instance
//! seed for its keyed hash. Keys are never removed, so probing needs no
//! tombstones.

use vstd::prelude::*;
use vstd::set_lib::lemma_len_subset;

verus! {

/// Second key of the keyed hash; the instance seed is the first.
pub const HASH_KEY1: u64 = 0xdeadbeef;

/// Initial number of slots.
pub const INITIAL_CAPACITY: usize = 16;

/// Largest number of entries that `insert` accepts; beyond it the doubled
/// table could no longer be sized.
pub const MAX_LEN: usize = usize::MAX / 8;

/// The SipHash-2-4 digest of `key` under the keys `(k0, k1)`.
pub uninterp spec fn sip_hash(k0: u64, k1: u64, key: u64) -> u64;

/// Relies on `core::hash::SipHasher`: `new_with_keys(k0, k1)`, then hashing
/// the `u64` key and `finish`, gives a digest that depends on the three
/// values alone.
#[verifier::external_body]
#[allow(deprecated)]
fn keyed_hash(k0: u64, k1: u64, key: u64) -> (r: u64)
    ensures
        r == sip_hash(k0, k1, key),
{
    let mut h = core::hash::SipHasher::new_with_keys(k0, k1);
    core::hash::Hash::hash(&key, &mut h);
    core::hash::Hasher::finish(&h)
}

/// The slot at which probing for `key` starts in a table of `cap` slots.
pub open spec fn home(seed: u64, key: u64, cap: int) -> int {
    ((sip_hash(seed, HASH_KEY1, key) as usize) as int) % cap
}

/// The slot `e` steps after slot `h`, wrapping around.
pub open spec fn wrap(h: int, e: int, cap: int) -> int {
    if h + e < cap {
        h + e
    } else {
        h + e - cap
    }
}

/// The number of steps from slot `h` forward to slot `p`, wrapping around.
pub open spec fn dist(h: int, p: int, cap: int) -> int {
    if p >= h {
        p - h
    } else {
        p + cap - h
    }
}

proof fn lemma_wrap_dist(h: int, p: int, cap: int)
    requires
        0 <= h < cap,
        0 <= p < cap,
    ensures
        0 <= dist(h, p, cap) < cap,
        wrap(h, dist(h, p, cap), cap) == p,
{
}

proof fn lemma_dist_wrap(h: int, e: int, cap: int)
    requires
        0 <= h < cap,
        0 <= e < cap,
    ensures
        0 <= wrap(h, e, cap) < cap,
        dist(h, wrap(h, e, cap), cap) == e,
{
}

struct Bucket<V> {
    key: u64,
    value: V,
}

/// `t` holds exactly the entries of `m`, the entry of key `k` at slot
/// `pos[k]`, and every slot between the home of `k` and `pos[k]` is
/// occupied, so that probing from the home reaches it.
spec fn table_ok<V>(t: Seq<Option<Bucket<V>>>, seed: u64, m: Map<u64, V>, pos: Map<u64, int>) -> bool {
    &&& t.len() > 0
    &&& m.dom().finite()
    &&& forall|k: u64| m.contains_key(k) <==> #[trigger] pos.contains_key(k)
    &&& forall|k: u64|
        #[trigger] pos.contains_key(k) ==> 0 <= pos[k] < t.len() && t[pos[k]] is Some && t[pos[k]]->Some_0.key
            == k && t[pos[k]]->Some_0.value == m[k]
    &&& forall|i: int|
        0 <= i < t.len() && #[trigger] t[i] is Some ==> pos.contains_key(t[i]->Some_0.key) && pos[t[i]->Some_0.key]
            == i
    &&& forall|k: u64, e: int|
        pos.contains_key(k) && 0 <= e < dist(home(seed, k, t.len() as int), pos[k], t.len() as int) ==> (#[trigger] t[wrap(
            home(seed, k, t.len() as int),
            e,
            t.len() as int,
        )]) is Some
}

/// A table with no empty slot holds at least as many keys as it has slots.
proof fn lemma_full_table<V>(t: Seq<Option<Bucket<V>>>, seed: u64, m: Map<u64, V>, pos: Map<u64, int>)
    requires
        table_ok(t, seed, m, pos),
        forall|i: int| 0 <= i < t.len() ==> (#[trigger] t[i]) is Some,
    ensures
        m.dom().len() >= t.len(),
{
    let keys = Seq::new(t.len(), |i: int| t[i]->Some_0.key);
    assert forall|i: int, j: int| 0 <= i < j < keys.len() implies keys[i] != keys[j] by {
        assert(t[i] is Some);
        assert(t[j] is Some);
    }
    assert(keys.no_duplicates());
    keys.unique_seq_to_set();
    assert forall|k: u64| keys.to_set().contains(k) implies m.dom().contains(k) by {
        let i = choose|i: int| 0 <= i < keys.len() && keys[i] == k;
        assert(t[i] is Some);
        assert(pos.contains_key(k));
    }
    lemma_len_subset(keys.to_set(), m.dom());
}

/// The home slot of `key` in a table of `cap` slots.
fn index_for_seed(seed: u64, key: u64, cap: usize) -> (r: usize)
    requires
        cap > 0,
    ensures
        r == home(seed, key, cap as int),
        r < cap,
{
    (keyed_hash(seed, HASH_KEY1, key) as usize) % cap
}

/// Probes from `h`, the home slot of `key`: returns the slot of `key` and
/// `true` when the table holds it, else the first empty slot on the way
/// and `false`.
fn probe<V>(
    t: &Vec<Option<Bucket<V>>>,
    h: usize,
    key: u64,
    Ghost(seed): Ghost<u64>,
    Ghost(m): Ghost<Map<u64, V>>,
    Ghost(pos): Ghost<Map<u64, int>>,
) -> (r: (usize, bool))
    requires
        table_ok(t@, seed, m, pos),
        m.dom().len() < t@.len(),
        h == home(seed, key, t@.len() as int),
    ensures
        r.0 < t@.len(),
        r.1 == m.contains_key(key),
        r.1 ==> r.0 == pos[key],
        !r.1 ==> t@[r.0 as int] is None,
        !r.1 ==> forall|e: int|
            0 <= e < dist(h as int, r.0 as int, t@.len() as int) ==> (#[trigger] t@[wrap(
                h as int,
                e,
                t@.len() as int,
            )]) is Some,
{
    let cap = t.len();
    let mut idx = h;
    let ghost mut d: int = 0;
    loop
        invariant
            table_ok(t@, seed, m, pos),
            m.dom().len() < t@.len(),
            h == home(seed, key, t@.len() as int),
            cap == t@.len(),
            0 <= d < cap,
            idx == wrap(h as int, d, cap as int),
            forall|e: int|
                0 <= e < d ==> (#[trigger] t@[wrap(h as int, e, cap as int)]) is Some && t@[wrap(
                    h as int,
                    e,
                    cap as int,
                )]->Some_0.key != key,
        decreases cap - d,
    {
        match &t[idx] {
            Some(b) => {
                if b.key == key {
                    return (idx, true);
                }
            },
            None => {
                proof {
                    lemma_dist_wrap(h as int, d, cap as int);
                    if m.contains_key(key) {
                        assert(pos.contains_key(key));
                        let p = pos[key];
                        lemma_wrap_dist(h as int, p, cap as int);
                        let dp = dist(h as int, p, cap as int);
                        if dp < d {
                            assert(t@[wrap(h as int, dp, cap as int)] is Some);
                        } else if dp > d {
                            assert(t@[wrap(home(seed, key, cap as int), d, cap as int)] is Some);
                        }
                    }
                }
                return (idx, false);
            },
        }
        proof {
            if d + 1 == cap {
                assert forall|i: int| 0 <= i < cap implies (#[trigger] t@[i]) is Some by {
                    lemma_wrap_dist(h as int, i, cap as int);
                    let e = dist(h as int, i, cap as int);
                    if e < d {
                        assert(t@[wrap(h as int, e, cap as int)] is Some);
                    }
                }
                lemma_full_table(t@, seed, m, pos);
            }
        }
        idx = if idx + 1 == cap { 0 } else { idx + 1 };
        proof {
            d = d + 1;
        }
    }
}

/// Placing a new key in an empty slot that its probe sequence reaches
/// keeps the table consistent.
proof fn lemma_place<V>(
    t: Seq<Option<Bucket<V>>>,
    seed: u64,
    m: Map<u64, V>,
    pos: Map<u64, int>,
    k: u64,
    v: V,
    idx: int,
)
    requires
        table_ok(t, seed, m, pos),
        !m.contains_key(k),
        0 <= idx < t.len(),
        t[idx] is None,
        forall|e: int|
            0 <= e < dist(home(seed, k, t.len() as int), idx, t.len() as int) ==> (#[trigger] t[wrap(
                home(seed, k, t.len() as int),
                e,
                t.len() as int,
            )]) is Some,
    ensures
        table_ok(t.update(idx, Some(Bucket { key: k, value: v })), seed, m.insert(k, v), pos.insert(k, idx)),
{
    let t2 = t.update(idx, Some(Bucket { key: k, value: v }));
    let m2 = m.insert(k, v);
    let pos2 = pos.insert(k, idx);
    let n = t.len() as int;
    assert forall|i: int| 0 <= i < t2.len() && #[trigger] t2[i] is Some implies pos2.contains_key(
        t2[i]->Some_0.key,
    ) && pos2[t2[i]->Some_0.key] == i by {
        if i != idx {
            assert(t[i] is Some);
            assert(pos.contains_key(t[i]->Some_0.key));
        }
    }
    assert forall|j: u64, e: int|
        pos2.contains_key(j) && 0 <= e < dist(home(seed, j, n), pos2[j], n) implies (#[trigger] t2[wrap(
        home(seed, j, n),
        e,
        n,
    )]) is Some by {
        if j != k {
            assert(t[wrap(home(seed, j, n), e, n)] is Some);
        } else {
            assert(t[wrap(home(seed, k, n), e, n)] is Some);
        }
    }
}

/// Replacing the value of a key in its own slot keeps the table consistent.
proof fn lemma_replace<V>(t: Seq<Option<Bucket<V>>>, seed: u64, m: Map<u64, V>, pos: Map<u64, int>, k: u64, v: V)
    requires
        table_ok(t, seed, m, pos),
        m.contains_key(k),
    ensures
        pos.contains_key(k),
        table_ok(t.update(pos[k], Some(Bucket { key: k, value: v })), seed, m.insert(k, v), pos),
{
    let t2 = t.update(pos[k], Some(Bucket { key: k, value: v }));
    let n = t.len() as int;
    assert(pos.contains_key(k));
    assert forall|i: int| 0 <= i < t2.len() && #[trigger] t2[i] is Some implies pos.contains_key(
        t2[i]->Some_0.key,
    ) && pos[t2[i]->Some_0.key] == i by {
        if i != pos[k] {
            assert(t[i] is Some);
        }
    }
    assert forall|j: u64, e: int|
        pos.contains_key(j) && 0 <= e < dist(home(seed, j, n), pos[j], n) implies (#[trigger] t2[wrap(
        home(seed, j, n),
        e,
        n,
    )]) is Some by {
        assert(t[wrap(home(seed, j, n), e, n)] is Some);
    }
}

/// The entries in the slots of `t`, in slot order.
spec fn slot_entries<V>(t: Seq<Option<Bucket<V>>>) -> Seq<(u64, V)>
    decreases t.len(),
{
    if t.len() == 0 {
        Seq::empty()
    } else {
        let rest = slot_entries(t.drop_first());
        match t[0] {
            Some(b) => seq![(b.key, b.value)] + rest,
            None => rest,
        }
    }
}

proof fn lemma_slot_entries_step<V>(t: Seq<Option<Bucket<V>>>, i: int)
    requires
        0 <= i < t.len(),
    ensures
        slot_entries(t.subrange(i, t.len() as int)) == match t[i] {
            Some(b) => seq![(b.key, b.value)] + slot_entries(t.subrange(i + 1, t.len() as int)),
            None => slot_entries(t.subrange(i + 1, t.len() as int)),
        },
{
    assert(t.subrange(i, t.len() as int).drop_first() =~= t.subrange(i + 1, t.len() as int));
}

/// The entries of the slots from `j` on are entries of `m` stored at or
/// after `j`, with distinct keys, and every such key appears.
proof fn lemma_slot_entries_suffix<V>(t: Seq<Option<Bucket<V>>>, seed: u64, m: Map<u64, V>, pos: Map<u64, int>, j: int)
    requires
        table_ok(t, seed, m, pos),
        0 <= j <= t.len(),
    ensures
        forall|i: int|
            0 <= i < slot_entries(t.subrange(j, t.len() as int)).len() ==> {
                let e = #[trigger] slot_entries(t.subrange(j, t.len() as int))[i];
                &&& m.contains_key(e.0)
                &&& m[e.0] == e.1
                &&& pos[e.0] >= j
            },
        forall|a: int, b: int|
            0 <= a < b < slot_entries(t.subrange(j, t.len() as int)).len() ==> (#[trigger] slot_entries(
                t.subrange(j, t.len() as int),
            )[a]).0 != (#[trigger] slot_entries(t.subrange(j, t.len() as int))[b]).0,
        forall|k: u64|
            #[trigger] m.contains_key(k) && pos[k] >= j ==> exists|i: int|
                0 <= i < slot_entries(t.subrange(j, t.len() as int)).len() && (#[trigger] slot_entries(
                    t.subrange(j, t.len() as int),
                )[i]).0 == k,
    decreases t.len() - j,
{
    let n = t.len() as int;
    if j == n {
        assert(t.subrange(j, n).len() == 0);
        assert forall|k: u64| #[trigger] m.contains_key(k) implies pos[k] < j by {
            assert(pos.contains_key(k));
        }
    } else {
        lemma_slot_entries_suffix(t, seed, m, pos, j + 1);
        lemma_slot_entries_step(t, j);
        let es = slot_entries(t.subrange(j, n));
        let rest = slot_entries(t.subrange(j + 1, n));
        match t[j] {
            Some(b) => {
                assert(pos.contains_key(b.key));
                assert(es == seq![(b.key, b.value)] + rest);
                assert forall|i: int| 0 <= i < es.len() implies {
                    let e = #[trigger] es[i];
                    &&& m.contains_key(e.0)
                    &&& m[e.0] == e.1
                    &&& pos[e.0] >= j
                } by {
                    if i > 0 {
                        assert(es[i] == rest[i - 1]);
                    }
                }
                assert forall|a: int, c: int| 0 <= a < c < es.len() implies (#[trigger] es[a]).0 != (
                #[trigger] es[c]).0 by {
                    assert(es[c] == rest[c - 1]);
                    if a > 0 {
                        assert(es[a] == rest[a - 1]);
                    } else {
                        assert(pos[rest[c - 1].0] >= j + 1);
                    }
                }
                assert forall|k: u64| #[trigger] m.contains_key(k) && pos[k] >= j implies exists|i: int|
                    0 <= i < es.len() && (#[trigger] es[i]).0 == k by {
                    if pos[k] == j {
                        assert(pos.contains_key(k));
                        assert(es[0].0 == k);
                    } else {
                        let i = choose|i: int| 0 <= i < rest.len() && (#[trigger] rest[i]).0 == k;
                        assert(es[i + 1] == rest[i]);
                    }
                }
            },
            None => {
                assert forall|k: u64| #[trigger] m.contains_key(k) && pos[k] >= j implies pos[k] >= j + 1 by {
                    assert(pos.contains_key(k));
                }
            },
        }
    }
}

/// The entries of a consistent table list each entry of `m` exactly once.
proof fn lemma_slot_entries_all<V>(t: Seq<Option<Bucket<V>>>, seed: u64, m: Map<u64, V>, pos: Map<u64, int>)
    requires
        table_ok(t, seed, m, pos),
    ensures
        slot_entries(t.subrange(0, t.len() as int)).len() == m.dom().len(),
        forall|i: int|
            0 <= i < slot_entries(t.subrange(0, t.len() as int)).len() ==> {
                let e = #[trigger] slot_entries(t.subrange(0, t.len() as int))[i];
                m.contains_key(e.0) && m[e.0] == e.1
            },
        forall|a: int, b: int|
            0 <= a < b < slot_entries(t.subrange(0, t.len() as int)).len() ==> (#[trigger] slot_entries(
                t.subrange(0, t.len() as int),
            )[a]).0 != (#[trigger] slot_entries(t.subrange(0, t.len() as int))[b]).0,
        forall|k: u64|
            #[trigger] m.contains_key(k) ==> exists|i: int|
                0 <= i < slot_entries(t.subrange(0, t.len() as int)).len() && (#[trigger] slot_entries(
                    t.subrange(0, t.len() as int),
                )[i]).0 == k,
{
    lemma_slot_entries_suffix(t, seed, m, pos, 0);
    let es = slot_entries(t.subrange(0, t.len() as int));
    assert forall|k: u64| #[trigger] m.contains_key(k) implies pos[k] >= 0 by {
        assert(pos.contains_key(k));
    }
    let ks = Seq::new(es.len(), |i: int| es[i].0);
    assert(ks.no_duplicates());
    ks.unique_seq_to_set();
    assert forall|k: u64| ks.to_set().contains(k) <==> m.dom().contains(k) by {
        if m.contains_key(k) {
            let i = choose|i: int| 0 <= i < es.len() && (#[trigger] es[i]).0 == k;
            assert(ks[i] == k);
        }
        if ks.to_set().contains(k) {
            let i = choose|i: int| 0 <= i < ks.len() && ks[i] == k;
            assert(es[i] == es[i]);
        }
    }
    assert(ks.to_set() =~= m.dom());
}

/// A table of `n` empty slots.
fn empty_table<V>(n: usize) -> (t: Vec<Option<Bucket<V>>>)
    ensures
        t@.len() == n,
        forall|i: int| 0 <= i < n ==> (#[trigger] t@[i]) is None,
{
    let mut t: Vec<Option<Bucket<V>>> = Vec::new();
    let mut i: usize = 0;
    while i < n
        invariant
            i <= n,
            t@.len() == i,
            forall|j: int| 0 <= j < i ==> (#[trigger] t@[j]) is None,
        decreases n - i,
    {
        t.push(None);
        i = i + 1;
    }
    t
}

/// The map that inserting `keys[i] -> vals[i]` in order into an empty map gives.
pub open spec fn inserted<V>(keys: Seq<u64>, vals: Seq<V>) -> Map<u64, V>
    decreases keys.len(),
{
    if keys.len() == 0 {
        Map::empty()
    } else {
        inserted(keys.drop_last(), vals.drop_last()).insert(keys.last(), vals.last())
    }
}

/// A key looked up right after it was inserted gives the inserted value.
pub proof fn lemma_insert_then_get<V>(m: Map<u64, V>, k: u64, v: V)
    ensures
        m.insert(k, v).contains_key(k),
        m.insert(k, v)[k] == v,
{
}

/// Inserting a key that is already present replaces its value and keeps
/// the number of entries.
pub proof fn lemma_insert_existing<V>(m: Map<u64, V>, k: u64, v: V)
    requires
        m.dom().finite(),
        m.contains_key(k),
    ensures
        m.insert(k, v).len() == m.len(),
        m.insert(k, v)[k] == v,
{
    assert(m.insert(k, v).dom() =~= m.dom());
}

/// After any sequence of insertions into an empty map, its keys are the
/// distinct keys inserted, its length is their number, and each key maps
/// to the value of its last insertion.
pub proof fn lemma_inserted<V>(keys: Seq<u64>, vals: Seq<V>)
    requires
        keys.len() == vals.len(),
    ensures
        inserted(keys, vals).dom().finite(),
        inserted(keys, vals).dom() == keys.to_set(),
        inserted(keys, vals).len() == keys.to_set().len(),
        forall|i: int|
            0 <= i < keys.len() && (forall|j: int| i < j < keys.len() ==> keys[j] != keys[i])
                ==> #[trigger] inserted(keys, vals)[keys[i]] == vals[i],
    decreases keys.len(),
{
    if keys.len() == 0 {
        assert(inserted(keys, vals).dom() =~= keys.to_set());
    } else {
        let n = keys.len() - 1;
        let ks = keys.drop_last();
        let vs = vals.drop_last();
        lemma_inserted(ks, vs);
        assert forall|k: u64| keys.to_set().contains(k) <==> inserted(keys, vals).dom().contains(k) by {
            if keys.to_set().contains(k) {
                let i = choose|i: int| 0 <= i < keys.len() && keys[i] == k;
                if i < n {
                    assert(ks[i] == k);
                    assert(ks.to_set().contains(k));
                }
            }
            if inserted(keys, vals).dom().contains(k) && k != keys.last() {
                assert(ks.to_set().contains(k));
                let i = choose|i: int| 0 <= i < ks.len() && ks[i] == k;
                assert(keys[i] == k);
            }
        }
        assert(inserted(keys, vals).dom() =~= keys.to_set());
        assert forall|i: int|
            0 <= i < keys.len() && (forall|j: int| i < j < keys.len() ==> keys[j] != keys[i]) implies
            #[trigger] inserted(keys, vals)[keys[i]] == vals[i] by {
            if i < n {
                assert(keys[n] != keys[i]);
                assert(ks[i] == keys[i]);
                assert(vs[i] == vals[i]);
                assert forall|j: int| i < j < ks.len() implies ks[j] != ks[i] by {
                    assert(ks[j] == keys[j]);
                }
                assert(inserted(ks, vs)[ks[i]] == vs[i]);
            }
        }
    }
}

/// Custom hash map from `u64` keys, using open addressing.
pub struct HashMap<V> {
    buckets: Vec<Option<Bucket<V>>>,
    len: usize,
    seed: u64,
    entries: Ghost<Map<u64, V>>,
    slot_of: Ghost<Map<u64, int>>,
}

impl<V> View for HashMap<V> {
    type V = Map<u64, V>;

    closed spec fn view(&self) -> Map<u64, V> {
        self.entries@
    }
}

impl<V> HashMap<V> {
    /// The table holds exactly the entries, `len` counts them, and the load
    /// stays under the growth threshold.
    pub closed spec fn wf(&self) -> bool {
        &&& table_ok(self.buckets@, self.seed, self.entries@, self.slot_of@)
        &&& self.len == self.entries@.dom().len()
        &&& self.buckets@.len() >= INITIAL_CAPACITY
        &&& self.len * 100 < self.buckets@.len() * 70 + 100
        &&& (self.buckets@.len() == INITIAL_CAPACITY || self.buckets@.len() * 35 <= self.len * 100)
    }

    /// The seed of the keyed hash, fixed for the life of the map.
    pub closed spec fn seed(&self) -> u64 {
        self.seed
    }

    /// An empty map of `INITIAL_CAPACITY` slots whose keyed hash uses `seed`.
    pub fn new(seed: u64) -> (r: Self)
        ensures
            r.wf(),
            r@ == Map::<u64, V>::empty(),
            r.seed() == seed,
    {
        let buckets = empty_table(INITIAL_CAPACITY);
        let r = HashMap { buckets, len: 0, seed, entries: Ghost(Map::empty()), slot_of: Ghost(Map::empty()) };
        assert(r.entries@.dom() =~= Set::<u64>::empty());
        r
    }

    /// The home slot of `key` in a table of `cap` slots under this map's seed.
    fn index_for(&self, key: &u64, cap: usize) -> (r: usize)
        requires
            cap > 0,
        ensures
            r == home(self.seed, *key, cap as int),
    {
        index_for_seed(self.seed, *key, cap)
    }

    /// The home slot of `key` in the current table.
    fn hash(&self, key: &u64) -> (r: usize)
        requires
            self.buckets@.len() > 0,
        ensures
            r == home(self.seed, *key, self.buckets@.len() as int),
    {
        self.index_for(key, self.buckets.len())
    }

    /// Number of entries.
    pub fn len(&self) -> (r: usize)
        requires
            self.wf(),
        ensures
            r == self@.len(),
    {
        self.len
    }

    /// The value of `key`, if the map holds it.
    pub fn get(&self, key: &u64) -> (r: Option<&V>)
        requires
            self.wf(),
        ensures
            match r {
                Some(v) => self@.contains_key(*key) && *v == self@[*key],
                None => !self@.contains_key(*key),
            },
    {
        let h = self.hash(key);
        let (idx, found) = probe(&self.buckets, h, *key, Ghost(self.seed), Ghost(self.entries@), Ghost(self.slot_of@));
        if found {
            proof {
                assert(self.slot_of@.contains_key(*key));
            }
            match &self.buckets[idx] {
                Some(b) => Some(&b.value),
                None => None,
            }
        } else {
            None
        }
    }
    /// Moves every entry into a table of twice the slots.
    fn grow(&mut self)
        requires
            old(self).wf(),
            old(self).buckets@.len() * 2 <= usize::MAX,
        ensures
            table_ok(final(self).buckets@, final(self).seed, final(self).entries@, final(self).slot_of@),
            final(self)@ == old(self)@,
            final(self).len == old(self).len,
            final(self).seed == old(self).seed,
            final(self).buckets@.len() == 2 * old(self).buckets@.len(),
    {
        let old_cap = self.buckets.len();
        let new_cap = old_cap * 2;
        let mut table = empty_table(new_cap);
        core::mem::swap(&mut self.buckets, &mut table);
        let seed = self.seed;
        let ghost old_slots = table@;
        let ghost old_m = self.entries@;
        let ghost old_pos = self.slot_of@;
        let ghost mut nm: Map<u64, V> = Map::empty();
        let ghost mut npos: Map<u64, int> = Map::empty();
        proof {
            assert(nm.dom() =~= Set::<u64>::empty());
            assert forall|k: u64| #[trigger]
                nm.contains_key(k) <==> (old_m.contains_key(k) && old_pos[k] < 0) by {
                if old_m.contains_key(k) {
                    assert(old_pos.contains_key(k));
                }
            }
        }
        let mut j: usize = 0;
        while j < old_cap
            invariant
                old(self).wf(),
                old_slots == old(self).buckets@,
                old_m == old(self).entries@,
                old_pos == old(self).slot_of@,
                old_cap == old_slots.len(),
                new_cap == 2 * old_cap,
                seed == old(self).seed,
                self.seed == seed,
                self.len == old(self).len,
                self.entries == old(self).entries,
                j <= old_cap,
                table@.len() == old_cap,
                forall|i: int| j <= i < old_cap ==> #[trigger] table@[i] == old_slots[i],
                self.buckets@.len() == new_cap,
                table_ok(self.buckets@, seed, nm, npos),
                forall|k: u64| #[trigger]
                    nm.contains_key(k) <==> (old_m.contains_key(k) && old_pos[k] < j),
                forall|k: u64| #[trigger] nm.contains_key(k) ==> nm[k] == old_m[k],
            decreases old_cap - j,
        {
            let mut slot: Option<Bucket<V>> = None;
            table.set_and_swap(j, &mut slot);
            match slot {
                Some(bucket) => {
                    let ghost k = bucket.key;
                    let ghost v = bucket.value;
                    proof {
                        assert(old_slots[j as int] is Some);
                        assert(old_pos.contains_key(k));
                        assert(old_m.contains_key(k));
                        assert(nm.dom().subset_of(old_m.dom()));
                        lemma_len_subset(nm.dom(), old_m.dom());
                    }
                    let h = index_for_seed(seed, bucket.key, new_cap);
                    let (idx, found) = probe(&self.buckets, h, bucket.key, Ghost(seed), Ghost(nm), Ghost(npos));
                    proof {
                        lemma_place(self.buckets@, seed, nm, npos, k, v, idx as int);
                    }
                    self.buckets.set(idx, Some(bucket));
                    proof {
                        let pm = nm;
                        nm = nm.insert(k, v);
                        npos = npos.insert(k, idx as int);
                        assert forall|x: u64| #[trigger]
                            nm.contains_key(x) <==> (old_m.contains_key(x) && old_pos[x] < j + 1) by {
                            if old_m.contains_key(x) {
                                assert(old_pos.contains_key(x));
                                if old_pos[x] == j {
                                    assert(old_slots[j as int]->Some_0.key == x);
                                }
                            }
                            if x != k {
                                assert(nm.contains_key(x) == pm.contains_key(x));
                            }
                        }
                    }
                },
                None => {
                    proof {
                        assert forall|k: u64| old_m.contains_key(k) implies old_pos[k] != j by {
                            assert(old_pos.contains_key(k));
                        }
                        assert forall|x: u64| #[trigger]
                            nm.contains_key(x) <==> (old_m.contains_key(x) && old_pos[x] < j + 1) by {
                            if old_m.contains_key(x) {
                                assert(old_pos.contains_key(x));
                            }
                        }
                    }
                },
            }
            j = j + 1;
        }
        proof {
            assert forall|k: u64| old_m.contains_key(k) implies old_pos[k] < j by {
                assert(old_pos.contains_key(k));
            }
            assert(nm =~= old_m);
        }
        self.slot_of = Ghost(npos);
    }

    /// Maps `key` to `value`, replacing any earlier value. Grows the table
    /// first when it is at least 70% full.
    pub fn insert(&mut self, key: u64, value: V)
        requires
            old(self).wf(),
            old(self)@.len() < MAX_LEN,
        ensures
            final(self).wf(),
            final(self)@ == old(self)@.insert(key, value),
            final(self).seed() == old(self).seed(),
    {
        if (self.len as u128) * 100 >= (self.buckets.len() as u128) * 70 {
            self.grow();
        }
        let h = self.hash(&key);
        let ghost v = value;
        let (idx, found) = probe(&self.buckets, h, key, Ghost(self.seed), Ghost(self.entries@), Ghost(self.slot_of@));
        if found {
            proof {
                lemma_replace(self.buckets@, self.seed, self.entries@, self.slot_of@, key, v);
            }
            self.buckets.set(idx, Some(Bucket { key, value }));
            self.entries = Ghost(self.entries@.insert(key, v));
        } else {
            proof {
                lemma_place(self.buckets@, self.seed, self.entries@, self.slot_of@, key, v, idx as int);
            }
            self.buckets.set(idx, Some(Bucket { key, value }));
            self.len = self.len + 1;
            self.entries = Ghost(self.entries@.insert(key, v));
            self.slot_of = Ghost(self.slot_of@.insert(key, idx as int));
        }
    }
    /// An iterator over the entries, in slot order.
    pub fn iter(&self) -> (r: Iter<'_, V>)
        requires
            self.wf(),
        ensures
            r.wf(),
            r.remaining().len() == self@.len(),
            forall|i: int|
                0 <= i < r.remaining().len() ==> self@.contains_key((#[trigger] r.remaining()[i]).0)
                    && self@[r.remaining()[i].0] == r.remaining()[i].1,
            forall|a: int, b: int|
                0 <= a < b < r.remaining().len() ==> (#[trigger] r.remaining()[a]).0 != (
                #[trigger] r.remaining()[b]).0,
            forall|k: u64|
                #[trigger] self@.contains_key(k) ==> exists|i: int|
                    0 <= i < r.remaining().len() && (#[trigger] r.remaining()[i]).0 == k,
    {
        proof {
            lemma_slot_entries_all(self.buckets@, self.seed, self.entries@, self.slot_of@);
        }
        let r = Iter { buckets: &self.buckets, idx: 0 };
        assert(r.remaining() == slot_entries(self.buckets@.subrange(0, self.buckets@.len() as int)));
        r
    }
}

/// Iterator over the entries of a `HashMap`, in slot order.
pub struct Iter<'a, V> {
    buckets: &'a Vec<Option<Bucket<V>>>,
    idx: usize,
}

impl<'a, V> Iter<'a, V> {
    pub closed spec fn wf(&self) -> bool {
        self.idx <= self.buckets@.len()
    }

    /// The entries still to come.
    pub closed spec fn remaining(&self) -> Seq<(u64, V)> {
        slot_entries(self.buckets@.subrange(self.idx as int, self.buckets@.len() as int))
    }

    /// The next entry, if any.
    pub fn next(&mut self) -> (r: Option<(&'a u64, &'a V)>)
        requires
            old(self).wf(),
        ensures
            final(self).wf(),
            old(self).remaining().len() == 0 ==> r is None && final(self).remaining() == old(self).remaining(),
            old(self).remaining().len() > 0 ==> r is Some && *r->Some_0.0 == old(self).remaining()[0].0
                && *r->Some_0.1 == old(self).remaining()[0].1 && final(self).remaining()
                == old(self).remaining().drop_first(),
    {
        let t: &'a Vec<Option<Bucket<V>>> = self.buckets;
        while self.idx < t.len()
            invariant
                self.buckets == t,
                self.idx <= t@.len(),
                self.remaining() == old(self).remaining(),
            decreases t@.len() - self.idx,
        {
            proof {
                lemma_slot_entries_step(t@, self.idx as int);
            }
            if let Some(b) = &t[self.idx] {
                self.idx = self.idx + 1;
                return Some((&b.key, &b.value));
            }
            self.idx = self.idx + 1;
        }
        proof {
            assert(t@.subrange(self.idx as int, t@.len() as int).len() == 0);
        }
        None
    }
}

} // verus!
