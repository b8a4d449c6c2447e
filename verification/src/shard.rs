//! One shard: slots holding keys, values, expiry times and embedding vectors, a key index,
//! a list of freed slots for reuse, and a graph over the slots for similarity search.
use crate::hnsw::HnswIndex;
use crate::routing::VECTOR_DIM;
use crate::text::str_equal;
use crate::value::{copy_fields, copy_strings, hash_insert, single_field_hash, DbValue, ValueView};
use crate::text::strings_view;
use crate::hnsw::{greedy_result, better};
use vstd::prelude::*;

verus! {

/// A shard. Slot `i` holds `keys[i]`, `values[i]`, `expiries[i]` and the `VECTOR_DIM`
/// vector components `vectors[i * VECTOR_DIM ..]` (each an `f32` kept as its bit pattern).
/// `key_to_idx` maps each live key to its slot; `free_slots` lists slots freed for reuse.
#[derive(Clone, Debug)]
pub struct Shard {
    pub key_to_idx: Vec<(String, usize)>,
    pub keys: Vec<String>,
    pub values: Vec<DbValue>,
    pub vectors: Vec<u32>,
    pub expiries: Vec<Option<u64>>,
    pub hnsw: HnswIndex,
    pub free_slots: Vec<usize>,
}

/// What a slot holds.
pub struct SlotView {
    pub key: Seq<char>,
    pub value: ValueView,
    pub expiry: Option<u64>,
    pub vector: Seq<u32>,
}

/// What a key maps to.
pub struct EntryView {
    pub value: ValueView,
    pub expiry: Option<u64>,
    pub vector: Seq<u32>,
}

/// The key index as a map from key to slot.
pub open spec fn index_map(e: Seq<(String, usize)>) -> Map<Seq<char>, usize> {
    Map::new(
        |k: Seq<char>| exists|i: int| 0 <= i < e.len() && (#[trigger] e[i]).0@ == k,
        |k: Seq<char>| e[choose|i: int| 0 <= i < e.len() && (#[trigger] e[i]).0@ == k].1,
    )
}

/// No key occurs twice in the index.
pub open spec fn index_keys_distinct(e: Seq<(String, usize)>) -> bool {
    forall|i: int, j: int|
        0 <= i < e.len() && 0 <= j < e.len() && i != j ==> (#[trigger] e[i]).0@ != (#[trigger] e[j]).0@
}

/// Slot `i` is the slot of some key of the index.
pub open spec fn slot_indexed(e: Seq<(String, usize)>, i: int) -> bool {
    exists|j: int| 0 <= j < e.len() && (#[trigger] e[j]).1 == i
}

/// A time stamp in the past (`0` means never): the rule every read applies to expiry times.
pub open spec fn is_expired(expiry: Option<u64>, now: u64) -> bool {
    expiry matches Some(e) && e != 0 && e <= now
}

pub proof fn lemma_index_map_at(e: Seq<(String, usize)>, i: int)
    requires
        index_keys_distinct(e),
        0 <= i < e.len(),
    ensures
        index_map(e).contains_key(e[i].0@),
        index_map(e)[e[i].0@] == e[i].1,
{
    let k = e[i].0@;
    assert(exists|j: int| 0 <= j < e.len() && (#[trigger] e[j]).0@ == k);
    let j = choose|j: int| 0 <= j < e.len() && (#[trigger] e[j]).0@ == k;
    assert(j == i);
}

impl Shard {
    /// The components of the vector stored in slot `i`.
    pub open spec fn vector_at(&self, i: int) -> Seq<u32> {
        self.vectors@.subrange(i * VECTOR_DIM, (i + 1) * VECTOR_DIM)
    }

    /// Everything slot `i` holds.
    pub open spec fn slot(&self, i: int) -> SlotView {
        SlotView {
            key: self.keys@[i]@,
            value: self.values@[i]@,
            expiry: self.expiries@[i],
            vector: self.vector_at(i),
        }
    }

    /// The slot of every live key.
    pub open spec fn index(&self) -> Map<Seq<char>, usize> {
        index_map(self.key_to_idx@)
    }

    /// What each live key maps to.
    pub open spec fn contents(&self) -> Map<Seq<char>, EntryView> {
        Map::new(
            |k: Seq<char>| self.index().contains_key(k),
            |k: Seq<char>|
                EntryView {
                    value: self.values@[self.index()[k] as int]@,
                    expiry: self.expiries@[self.index()[k] as int],
                    vector: self.vector_at(self.index()[k] as int),
                },
        )
    }

    /// Number of slots.
    pub open spec fn len(&self) -> nat {
        self.values@.len()
    }

    /// The shard's invariant.
    pub open spec fn wf(&self) -> bool {
        &&& self.keys@.len() == self.values@.len()
        &&& self.expiries@.len() == self.values@.len()
        &&& self.vectors@.len() == self.values@.len() * VECTOR_DIM
        &&& index_keys_distinct(self.key_to_idx@)
        &&& forall|i: int|
            0 <= i < self.key_to_idx@.len() ==> (#[trigger] self.key_to_idx@[i]).1 < self.values@.len()
        &&& forall|i: int|
            0 <= i < self.key_to_idx@.len() ==> self.keys@[(#[trigger] self.key_to_idx@[i]).1 as int]@
                == self.key_to_idx@[i].0@
        &&& forall|i: int, j: int|
            0 <= i < self.key_to_idx@.len() && 0 <= j < self.key_to_idx@.len() && i != j ==> (
            #[trigger] self.key_to_idx@[i]).1 != (#[trigger] self.key_to_idx@[j]).1
        &&& self.free_slots@.no_duplicates()
        &&& forall|k: int|
            0 <= k < self.free_slots@.len() ==> (#[trigger] self.free_slots@[k]) < self.values@.len()
        &&& forall|i: int, k: int|
            0 <= i < self.key_to_idx@.len() && 0 <= k < self.free_slots@.len() ==> (
            #[trigger] self.key_to_idx@[i]).1 != #[trigger] self.free_slots@[k]
        &&& forall|k: int|
            0 <= k < self.free_slots@.len() ==> self.values@[#[trigger] self.free_slots@[k] as int]
                is Empty
        &&& forall|i: int| 0 <= i < self.values@.len() ==> (#[trigger] self.values@[i]).wf()
        &&& forall|i: int|
            0 <= i < self.values@.len() && !slot_indexed(self.key_to_idx@, i) ==> (
            #[trigger] self.values@[i]) is Empty
        &&& self.hnsw.wf()
    }

    /// An empty shard.
    pub fn new() -> (r: Self)
        ensures
            r.wf(),
            r.len() == 0,
            r.contents() == Map::<Seq<char>, EntryView>::empty(),
            r.free_slots@.len() == 0,
            r.hnsw.graph().len() == 0,
            r.hnsw.entry_point is None,
            r.key_to_idx@.len() == 0,
            r.keys@.len() == 0,
            r.values@.len() == 0,
            r.vectors@.len() == 0,
            r.expiries@.len() == 0,
            r.hnsw.nodes@.len() == 0,
            r.hnsw.config.m == 16,
            r.hnsw.config.ef_construction == 128,
            r.hnsw.config.max_layers == 5,
    {
        let r = Shard {
            key_to_idx: Vec::new(),
            keys: Vec::new(),
            values: Vec::new(),
            vectors: Vec::new(),
            expiries: Vec::new(),
            hnsw: HnswIndex::new(),
            free_slots: Vec::new(),
        };
        assert(r.index() =~= Map::<Seq<char>, usize>::empty());
        assert(r.contents() =~= Map::<Seq<char>, EntryView>::empty());
        r
    }

    /// Where `key` sits in the index, if it is there.
    fn index_position(&self, key: &str) -> (r: Option<usize>)
        ensures
            r matches Some(p) ==> p < self.key_to_idx@.len() && self.key_to_idx@[p as int].0@ == key@,
            r is None ==> forall|i: int|
                0 <= i < self.key_to_idx@.len() ==> (#[trigger] self.key_to_idx@[i]).0@ != key@,
            r is None <==> !self.index().contains_key(key@),
    {
        let mut i: usize = 0;
        while i < self.key_to_idx.len()
            invariant
                i <= self.key_to_idx@.len(),
                forall|j: int| 0 <= j < i ==> (#[trigger] self.key_to_idx@[j]).0@ != key@,
            decreases self.key_to_idx@.len() - i,
        {
            if str_equal(self.key_to_idx[i].0.as_str(), key) {
                assert(self.index().contains_key(key@)) by {
                    assert(self.key_to_idx@[i as int].0@ == key@);
                }
                return Some(i);
            }
            i += 1;
        }
        None
    }

    /// The slot of `key`, if it is live.
    pub fn slot_of(&self, key: &str) -> (r: Option<usize>)
        requires
            self.wf(),
        ensures
            r is None <==> !self.index().contains_key(key@),
            r matches Some(i) ==> i == self.index()[key@] && i < self.len(),
    {
        match self.index_position(key) {
            Some(p) => {
                proof {
                    lemma_index_map_at(self.key_to_idx@, p as int);
                }
                Some(self.key_to_idx[p].1)
            },
            None => None,
        }
    }
}


/// The vector components of slot `i` lie within the buffer.
pub proof fn lemma_slot_range(i: int, n: int)
    requires
        0 <= i < n,
    ensures
        0 <= i * VECTOR_DIM,
        i * VECTOR_DIM + VECTOR_DIM <= n * VECTOR_DIM,
{
    assert(i * VECTOR_DIM + VECTOR_DIM <= n * VECTOR_DIM) by (nonlinear_arith)
        requires
            0 <= i < n,
            VECTOR_DIM == 384,
    ;
}

impl Shard {
    /// Points `key` at slot `idx` in the index, replacing its former slot if it had one.
    fn index_put(&mut self, key: String, idx: usize) -> (pos: Option<usize>)
        requires
            index_keys_distinct(old(self).key_to_idx@),
        ensures
            index_keys_distinct(final(self).key_to_idx@),
            final(self).index() == old(self).index().insert(key@, idx),
            match pos {
                Some(p) => p < old(self).key_to_idx@.len() && old(self).key_to_idx@[p as int].0@ == key@
                    && final(self).key_to_idx@ == old(self).key_to_idx@.update(p as int, (key, idx)),
                None => !old(self).index().contains_key(key@) && final(self).key_to_idx@ == old(
                    self,
                ).key_to_idx@.push((key, idx)),
            },
            final(self).keys == old(self).keys,
            final(self).values == old(self).values,
            final(self).vectors == old(self).vectors,
            final(self).expiries == old(self).expiries,
            final(self).hnsw == old(self).hnsw,
            final(self).free_slots == old(self).free_slots,
    {
        let ghost e0 = self.key_to_idx@;
        let ghost k = key@;
        match self.index_position(key.as_str()) {
            Some(p) => {
                self.key_to_idx.set(p, (key, idx));
                proof {
                    let e = self.key_to_idx@;
                    assert forall|a: int, b: int|
                        0 <= a < e.len() && 0 <= b < e.len() && a != b implies (#[trigger] e[a]).0@
                        != (#[trigger] e[b]).0@ by {
                        assert(e0[a].0@ != e0[b].0@);
                    }
                    lemma_index_map_at(e, p as int);
                    assert forall|x: Seq<char>| #![auto] index_map(e).contains_key(x) <==> index_map(e0).insert(k, idx).contains_key(x) by {
                        if index_map(e0).insert(k, idx).contains_key(x) && x != k {
                            let j = choose|j: int| 0 <= j < e0.len() && (#[trigger] e0[j]).0@ == x;
                            assert(e[j].0@ == x);
                        }
                    }
                    assert forall|x: Seq<char>| #[trigger] index_map(e).contains_key(x) implies index_map(e)[x] == index_map(e0).insert(k, idx)[x] by {
                        if x != k {
                            let j = choose|j: int| 0 <= j < e.len() && (#[trigger] e[j]).0@ == x;
                            lemma_index_map_at(e, j);
                            lemma_index_map_at(e0, j);
                        }
                    }
                    assert(index_map(e) =~= index_map(e0).insert(k, idx));
                }
                Some(p)
            },
            None => {
                self.key_to_idx.push((key, idx));
                proof {
                    let e = self.key_to_idx@;
                    let n = e.len() - 1;
                    assert forall|a: int, b: int|
                        0 <= a < e.len() && 0 <= b < e.len() && a != b implies (#[trigger] e[a]).0@
                        != (#[trigger] e[b]).0@ by {
                        if a != n && b != n {
                            assert(e0[a].0@ != e0[b].0@);
                        }
                    }
                    lemma_index_map_at(e, n);
                    assert forall|x: Seq<char>| #![auto] index_map(e).contains_key(x) <==> index_map(e0).insert(k, idx).contains_key(x) by {
                        if index_map(e0).insert(k, idx).contains_key(x) && x != k {
                            let j = choose|j: int| 0 <= j < e0.len() && (#[trigger] e0[j]).0@ == x;
                            assert(e[j].0@ == x);
                        }
                        if index_map(e).contains_key(x) && x != k {
                            let j = choose|j: int| 0 <= j < e.len() && (#[trigger] e[j]).0@ == x;
                            assert(j != n);
                            assert(e0[j].0@ == x);
                        }
                    }
                    assert forall|x: Seq<char>| #[trigger] index_map(e).contains_key(x) implies index_map(e)[x] == index_map(e0).insert(k, idx)[x] by {
                        if x != k {
                            let j = choose|j: int| 0 <= j < e.len() && (#[trigger] e[j]).0@ == x;
                            assert(j != n);
                            lemma_index_map_at(e, j);
                            lemma_index_map_at(e0, j);
                        }
                    }
                    assert(index_map(e) =~= index_map(e0).insert(k, idx));
                }
                None
            },
        }
    }

    /// Overwrites the vector of slot `i`.
    fn write_vector(&mut self, i: usize, v: &Vec<u32>)
        requires
            i < old(self).values@.len(),
            old(self).vectors@.len() == old(self).values@.len() * VECTOR_DIM,
            v@.len() == VECTOR_DIM,
        ensures
            final(self).vectors@.len() == old(self).vectors@.len(),
            final(self).vector_at(i as int) == v@,
            forall|j: int|
                0 <= j < old(self).values@.len() && j != i ==> #[trigger] final(self).vector_at(j)
                    == old(self).vector_at(j),
            final(self).keys == old(self).keys,
            final(self).values == old(self).values,
            final(self).expiries == old(self).expiries,
            final(self).key_to_idx == old(self).key_to_idx,
            final(self).hnsw == old(self).hnsw,
            final(self).free_slots == old(self).free_slots,
    {
        let vl = self.vectors.len();
        proof {
            lemma_slot_range(i as int, old(self).values@.len() as int);
        }
        assert(i * VECTOR_DIM + VECTOR_DIM <= vl);
        let start = i * VECTOR_DIM;
        let mut t: usize = 0;
        while t < VECTOR_DIM
            invariant
                start == i * VECTOR_DIM,
                start + VECTOR_DIM <= vl,
                vl == self.vectors@.len(),
                i < old(self).values@.len(),
                self.values@.len() == old(self).values@.len(),
                old(self).vectors@.len() == old(self).values@.len() * VECTOR_DIM,
                self.vectors@.len() == old(self).vectors@.len(),
                v@.len() == VECTOR_DIM,
                t <= VECTOR_DIM,
                forall|k: int|
                    0 <= k < self.vectors@.len() ==> #[trigger] self.vectors@[k] == if start <= k < start
                        + t {
                        v@[k - start]
                    } else {
                        old(self).vectors@[k]
                    },
                self.keys == old(self).keys,
                self.values == old(self).values,
                self.expiries == old(self).expiries,
                self.key_to_idx == old(self).key_to_idx,
                self.hnsw == old(self).hnsw,
                self.free_slots == old(self).free_slots,
            decreases VECTOR_DIM - t,
        {
            self.vectors.set(start + t, v[t]);
            t += 1;
        }
        assert(self.vector_at(i as int) =~= v@);
        assert forall|j: int|
            0 <= j < old(self).values@.len() && j != i implies #[trigger] self.vector_at(j)
            == old(self).vector_at(j) by {
            assert(self.vector_at(j) =~= old(self).vector_at(j));
        }
    }
}


impl Shard {
    /// The slot `insert_data` fills: the most recently freed slot, else a new one at the end.
    pub open spec fn target_slot(&self) -> int {
        if self.free_slots@.len() > 0 {
            self.free_slots@.last() as int
        } else {
            self.values@.len() as int
        }
    }

    /// Stores `value`, `exp` and `vector` under a key that is not live in the slot
    /// `target_slot` names, points the index at that slot, and adds the slot to the search
    /// graph.
    fn place_data(&mut self, key: String, value: DbValue, exp: Option<u64>, vector: Vec<u32>)
        requires
            old(self).wf(),
            !old(self).index().contains_key(key@),
            value.wf(),
            vector@.len() == VECTOR_DIM,
        ensures
            final(self).wf(),
            final(self).contents() == old(self).contents().insert(
                key@,
                EntryView { value: value@, expiry: exp, vector: vector@ },
            ),
            final(self).index() == old(self).index().insert(key@, old(self).target_slot() as usize),
            final(self).slot(old(self).target_slot()) == (SlotView {
                key: key@,
                value: value@,
                expiry: exp,
                vector: vector@,
            }),
            forall|i: int|
                0 <= i < old(self).len() && i != old(self).target_slot() ==> #[trigger] final(self).slot(i)
                    == old(self).slot(i),
            final(self).len() == if old(self).free_slots@.len() > 0 {
                old(self).len()
            } else {
                old(self).len() + 1
            },
            final(self).free_slots@ == if old(self).free_slots@.len() > 0 {
                old(self).free_slots@.drop_last()
            } else {
                old(self).free_slots@
            },
            final(self).hnsw.graph() == old(self).hnsw.inserted_graph(old(self).target_slot()),
            final(self).hnsw.entry_point == (match old(self).hnsw.entry_point {
                None => Some(old(self).target_slot() as usize),
                Some(e) => Some(e),
            }),
            final(self).hnsw.config == old(self).hnsw.config,
    {
        let ghost old_self = *self;
        let ghost k = key@;
        let ghost entry = EntryView { value: value@, expiry: exp, vector: vector@ };
        let idx = match self.free_slots.pop() {
            Some(f) => {
                self.keys.set(f, key.clone());
                self.values.set(f, value);
                self.expiries.set(f, exp);
                self.write_vector(f, &vector);
                f
            },
            None => {
                let n = self.values.len();
                self.keys.push(key.clone());
                self.values.push(value);
                self.expiries.push(exp);
                self.vectors.extend_from_slice(vector.as_slice());
                proof {
                    assert forall|j: int| 0 <= j < n implies #[trigger] self.vector_at(j)
                        == old_self.vector_at(j) by {
                        lemma_slot_range(j, n as int);
                        assert(self.vector_at(j) =~= old_self.vector_at(j));
                    }
                    lemma_slot_range(n as int, n + 1);
                    assert(self.vector_at(n as int) =~= vector@);
                }
                n
            },
        };
        assert(idx == old_self.target_slot());
        let vl = self.vectors.len();
        assert(self.vectors@.len() == self.values@.len() * VECTOR_DIM);
        assert(idx < usize::MAX) by {
            lemma_slot_range(idx as int, self.values@.len() as int);
        }
        let ghost mid = *self;
        let pos = self.index_put(key, idx);
        self.hnsw.insert(idx);
        proof {
            let e0 = old_self.key_to_idx@;
            let e = self.key_to_idx@;
            // slots other than idx are untouched
            assert forall|i: int| 0 <= i < old_self.len() && i != idx implies #[trigger] self.slot(i)
                == old_self.slot(i) by {
                assert(mid.vector_at(i) == old_self.vector_at(i));
            }
            assert(self.slot(idx as int) == SlotView { key: k, value: value@, expiry: exp, vector: vector@ });
            // old index entries never point at idx
            assert forall|i: int| 0 <= i < e0.len() implies (#[trigger] e0[i]).1 != idx by {
                if old_self.free_slots@.len() > 0 {
                    let last = old_self.free_slots@.len() - 1;
                    assert(e0[i].1 != old_self.free_slots@[last]);
                }
            }
            // the shard invariant
            assert forall|i: int| 0 <= i < e.len() implies (#[trigger] e[i]).1 < self.values@.len()
                && self.keys@[e[i].1 as int]@ == e[i].0@ by {
                match pos {
                    Some(p) => {
                        if i != p {
                            assert(e[i] == e0[i]);
                            assert(self.slot(e0[i].1 as int) == old_self.slot(e0[i].1 as int));
                        }
                    },
                    None => {
                        if i < e0.len() {
                            assert(e[i] == e0[i]);
                            assert(self.slot(e0[i].1 as int) == old_self.slot(e0[i].1 as int));
                        }
                    },
                }
            }
            assert forall|i: int, j: int|
                0 <= i < e.len() && 0 <= j < e.len() && i != j implies (#[trigger] e[i]).1
                != (#[trigger] e[j]).1 by {
                match pos {
                    Some(p) => {
                        if i != p && j != p {
                            assert(e0[i].1 != e0[j].1);
                        } else if i == p {
                            assert(e0[j].1 != idx);
                        } else {
                            assert(e0[i].1 != idx);
                        }
                    },
                    None => {
                        if i < e0.len() && j < e0.len() {
                            assert(e0[i].1 != e0[j].1);
                        } else if i < e0.len() {
                            assert(e0[i].1 != idx);
                        } else {
                            assert(e0[j].1 != idx);
                        }
                    },
                }
            }
            let fr0 = old_self.free_slots@;
            let fr = self.free_slots@;
            if fr0.len() > 0 {
                assert(fr =~= fr0.drop_last());
                assert forall|a: int| 0 <= a < fr.len() implies #[trigger] fr[a] != idx by {
                    assert(fr0[a] != fr0[fr0.len() - 1]);
                }
            }
            assert forall|i: int, a: int|
                0 <= i < e.len() && 0 <= a < fr.len() implies (#[trigger] e[i]).1
                != #[trigger] fr[a] by {
                assert(fr[a] == fr0[a]);
                match pos {
                    Some(p) => {
                        if i != p {
                            assert(e0[i].1 != fr0[a]);
                        }
                    },
                    None => {
                        if i < e0.len() {
                            assert(e0[i].1 != fr0[a]);
                        }
                    },
                }
            }
            assert forall|a: int| 0 <= a < fr.len() implies self.values@[#[trigger] fr[a] as int]
                is Empty by {
                assert(fr[a] == fr0[a]);
                assert(old_self.values@[fr0[a] as int] is Empty);
                assert(self.slot(fr0[a] as int) == old_self.slot(fr0[a] as int));
            }
            assert forall|i: int| 0 <= i < self.values@.len() implies (#[trigger] self.values@[i]).wf() by {
                if i != idx {
                    assert(self.values@[i] == old_self.values@[i]);
                }
            }
            assert forall|a: int| 0 <= a < fr.len() implies (#[trigger] fr[a]) < self.values@.len() by {
                assert(fr[a] == fr0[a]);
            }
            assert(pos is None);
            assert(e[e0.len() as int].1 == idx);
            assert forall|i: int|
                0 <= i < self.values@.len() && !slot_indexed(e, i) implies (
                #[trigger] self.values@[i]) is Empty by {
                if i == idx {
                    assert(slot_indexed(e, i));
                } else {
                    if slot_indexed(e0, i) {
                        let j = choose|j: int| 0 <= j < e0.len() && (#[trigger] e0[j]).1 == i;
                        assert(e[j] == e0[j]);
                    }
                    assert(self.values@[i] == old_self.values@[i]);
                }
            }
            assert(self.wf());
            // what the keys map to
            let c = self.contents();
            let c0 = old_self.contents().insert(k, entry);
            assert forall|x: Seq<char>| #[trigger] c.contains_key(x) implies c[x] == c0[x] by {
                if x != k {
                    let s = old_self.index()[x];
                    let j = choose|j: int| 0 <= j < e0.len() && (#[trigger] e0[j]).0@ == x;
                    lemma_index_map_at(e0, j);
                    assert(s != idx);
                    assert(self.slot(s as int) == old_self.slot(s as int));
                }
            }
            assert(c =~= c0);
        }
    }
}


/// `n` is `o` with at most slot `i`'s value, expiry time and vector changed: the index, the
/// keys, the free list and the search graph are as they were.
pub open spec fn only_slot_changed(o: Shard, n: Shard, i: int) -> bool {
    &&& n.key_to_idx == o.key_to_idx
    &&& n.keys == o.keys
    &&& n.free_slots == o.free_slots
    &&& n.hnsw == o.hnsw
    &&& n.len() == o.len()
    &&& forall|j: int| 0 <= j < o.len() && j != i ==> #[trigger] n.slot(j) == o.slot(j)
}

/// What removing `key` does to shard `o`, giving `n`: the key is gone from the index and the
/// contents; its slot is emptied (value `Empty`, empty key; expiry time and vector stay) and
/// joins the free list; no other slot and not the search graph change. Removing a key that is
/// not live changes nothing.
pub open spec fn remove_effect(o: Shard, n: Shard, key: Seq<char>) -> bool {
    &&& n.contents() == o.contents().remove(key)
    &&& n.index() == o.index().remove(key)
    &&& n.len() == o.len()
    &&& n.hnsw == o.hnsw
    &&& !o.index().contains_key(key) ==> n == o
    &&& o.index().contains_key(key) ==> ({
        let i = o.index()[key] as int;
        &&& n.free_slots@ == o.free_slots@.push(i as usize)
        &&& n.slot(i) == (SlotView {
            key: Seq::<char>::empty(),
            value: ValueView::Empty,
            expiry: o.slot(i).expiry,
            vector: o.slot(i).vector,
        })
        &&& forall|j: int| 0 <= j < o.len() && j != i ==> #[trigger] n.slot(j) == o.slot(j)
    })
}

/// What storing `key` with `x` does to shard `o`, giving `n`: the key maps to `x`; the slot
/// `store_slot` names holds it and no other slot changes; a live key keeps its own slot (so no
/// slot is left behind and the free list stays), a new key takes the most recently freed slot
/// or a new one at the end; the stored slot joins the search graph.
pub open spec fn store_effect(o: Shard, n: Shard, key: Seq<char>, x: EntryView) -> bool {
    let s = o.store_slot(key);
    let live = o.index().contains_key(key);
    &&& n.contents() == o.contents().insert(key, x)
    &&& n.index() == o.index().insert(key, s as usize)
    &&& n.slot(s) == (SlotView { key: key, value: x.value, expiry: x.expiry, vector: x.vector })
    &&& forall|i: int| 0 <= i < o.len() && i != s ==> #[trigger] n.slot(i) == o.slot(i)
    &&& n.len() == (if live || o.free_slots@.len() > 0 {
        o.len()
    } else {
        o.len() + 1
    })
    &&& n.free_slots@ == (if live {
        o.free_slots@
    } else if o.free_slots@.len() > 0 {
        o.free_slots@.drop_last()
    } else {
        o.free_slots@
    })
    &&& n.hnsw.graph() == o.hnsw.inserted_graph(s)
    &&& n.hnsw.entry_point == (match o.hnsw.entry_point {
        None => Some(s as usize),
        Some(e) => Some(e),
    })
    &&& n.hnsw.config == o.hnsw.config
}

impl Shard {
    /// The slot a store of `key` fills: the key's own slot when it is live, else `target_slot`.
    pub open spec fn store_slot(&self, key: Seq<char>) -> int {
        if self.index().contains_key(key) {
            self.index()[key] as int
        } else {
            self.target_slot()
        }
    }

    /// Stores `value`, `exp` and `vector` under `key` (see [`store_effect`]): a live key is
    /// stored again in its own slot, a new key in the slot `target_slot` names.
    pub fn insert_data(&mut self, key: String, value: DbValue, exp: Option<u64>, vector: Vec<u32>)
        requires
            old(self).wf(),
            value.wf(),
            vector@.len() == VECTOR_DIM,
        ensures
            final(self).wf(),
            store_effect(
                *old(self),
                *final(self),
                key@,
                EntryView { value: value@, expiry: exp, vector: vector@ },
            ),
    {
        let ghost o = *self;
        let ghost x = EntryView { value: value@, expiry: exp, vector: vector@ };
        let ghost k = key@;
        if self.slot_of(key.as_str()).is_some() {
            self.remove_data(key.as_str());
        }
        let ghost mid = *self;
        self.place_data(key, value, exp, vector);
        proof {
            if o.index().contains_key(k) {
                let i = o.index()[k] as int;
                assert(mid.target_slot() == i);
                assert(self.free_slots@ =~= o.free_slots@);
                assert(self.index() =~= o.index().insert(k, i as usize));
                assert(self.contents() =~= o.contents().insert(k, x));
                assert forall|j: int| 0 <= j < o.len() && j != i implies #[trigger] self.slot(j)
                    == o.slot(j) by {
                    assert(self.slot(j) == mid.slot(j));
                    assert(mid.slot(j) == o.slot(j));
                }
            }
        }
    }
}

impl Shard {
    /// Drops `key` from the index and frees its slot: the slot's value becomes `Empty`, its key
    /// the empty text, and the slot joins the free list. Its expiry time, vector and graph node
    /// stay as they were. A key that is not live changes nothing.
    pub fn remove_data(&mut self, key: &str)
        requires
            old(self).wf(),
        ensures
            final(self).wf(),
            remove_effect(*old(self), *final(self), key@),
    {
        let ghost old_self = *self;
        let ghost k = key@;
        match self.index_position(key) {
            Some(p) => {
                proof {
                    lemma_index_map_at(self.key_to_idx@, p as int);
                }
                let (_, idx) = self.key_to_idx.remove(p);
                self.values.set(idx, DbValue::Empty);
                self.keys.set(idx, String::new());
                self.free_slots.push(idx);
                proof {
                    let e0 = old_self.key_to_idx@;
                    let e = self.key_to_idx@;
                    assert(e =~= e0.remove(p as int));
                    assert forall|i: int| 0 <= i < e.len() implies #[trigger] e[i] == e0[if i < p {
                        i
                    } else {
                        i + 1
                    }] by {}
                    assert forall|j: int| 0 <= j < old_self.len() && j != idx implies #[trigger] self.slot(j)
                        == old_self.slot(j) by {}
                    assert(self.slot(idx as int) == SlotView {
                        key: Seq::<char>::empty(),
                        value: ValueView::Empty,
                        expiry: old_self.slot(idx as int).expiry,
                        vector: old_self.slot(idx as int).vector,
                    });
                    assert forall|a: int, b: int|
                        0 <= a < e.len() && 0 <= b < e.len() && a != b implies (#[trigger] e[a]).0@
                        != (#[trigger] e[b]).0@ by {
                        let a0 = if a < p { a } else { a + 1 };
                        let b0 = if b < p { b } else { b + 1 };
                        assert(e0[a0].0@ != e0[b0].0@);
                    }
                    assert forall|i: int| 0 <= i < e.len() implies (#[trigger] e[i]).1 != idx by {
                        let i0 = if i < p { i } else { i + 1 };
                        assert(e0[i0].1 != e0[p as int].1);
                    }
                    assert forall|i: int| 0 <= i < e.len() implies (#[trigger] e[i]).1 < self.values@.len()
                        && self.keys@[e[i].1 as int]@ == e[i].0@ by {
                        let i0 = if i < p { i } else { i + 1 };
                        assert(e[i] == e0[i0]);
                        assert(self.slot(e0[i0].1 as int) == old_self.slot(e0[i0].1 as int));
                    }
                    assert forall|a: int, b: int|
                        0 <= a < e.len() && 0 <= b < e.len() && a != b implies (#[trigger] e[a]).1
                        != (#[trigger] e[b]).1 by {
                        let a0 = if a < p { a } else { a + 1 };
                        let b0 = if b < p { b } else { b + 1 };
                        assert(e0[a0].1 != e0[b0].1);
                    }
                    let fr0 = old_self.free_slots@;
                    let fr = self.free_slots@;
                    assert forall|a: int| 0 <= a < fr0.len() implies #[trigger] fr0[a] != idx by {
                        assert(e0[p as int].1 != fr0[a]);
                    }
                    assert forall|a: int, b: int| 0 <= a < fr.len() && 0 <= b < fr.len() && a != b implies fr[a] != fr[b] by {
                        if a < fr0.len() && b < fr0.len() {
                            assert(fr[a] == fr0[a] && fr[b] == fr0[b]);
                        }
                    }
                    assert forall|i: int, a: int|
                        0 <= i < e.len() && 0 <= a < fr.len() implies (#[trigger] e[i]).1
                        != #[trigger] fr[a] by {
                        let i0 = if i < p { i } else { i + 1 };
                        if a < fr0.len() {
                            assert(e0[i0].1 != fr0[a]);
                        }
                    }
                    assert forall|a: int| 0 <= a < fr.len() implies self.values@[#[trigger] fr[a] as int]
                        is Empty by {
                        if a < fr0.len() {
                            assert(old_self.values@[fr0[a] as int] is Empty);
                        }
                    }
                    assert forall|i: int| 0 <= i < self.values@.len() implies (#[trigger] self.values@[i]).wf() by {
                        if i != idx {
                            assert(self.values@[i] == old_self.values@[i]);
                        }
                    }
                    assert forall|i: int|
                        0 <= i < self.values@.len() && !slot_indexed(e, i) implies (
                        #[trigger] self.values@[i]) is Empty by {
                        if i != idx {
                            if slot_indexed(e0, i) {
                                let j = choose|j: int| 0 <= j < e0.len() && (#[trigger] e0[j]).1 == i;
                                assert(j != p);
                                let j1 = if j < p { j } else { j - 1 };
                                assert(e[j1] == e0[j]);
                            }
                            assert(self.values@[i] == old_self.values@[i]);
                        }
                    }
                    assert(self.wf());
                    // the index and contents lose exactly `key`
                    assert forall|x: Seq<char>| #![auto] self.index().contains_key(x) <==> old_self.index().remove(k).contains_key(x) by {
                        if old_self.index().remove(k).contains_key(x) {
                            let j = choose|j: int| 0 <= j < e0.len() && (#[trigger] e0[j]).0@ == x;
                            assert(j != p);
                            let j1 = if j < p { j } else { j - 1 };
                            assert(e[j1].0@ == x);
                        }
                        if self.index().contains_key(x) {
                            let j = choose|j: int| 0 <= j < e.len() && (#[trigger] e[j]).0@ == x;
                            let j0 = if j < p { j } else { j + 1 };
                            assert(e0[j0].0@ == x);
                            assert(x != k);
                        }
                    }
                    assert forall|x: Seq<char>| #[trigger] self.index().contains_key(x) implies self.index()[x] == old_self.index()[x] by {
                        let j = choose|j: int| 0 <= j < e.len() && (#[trigger] e[j]).0@ == x;
                        let j0 = if j < p { j } else { j + 1 };
                        lemma_index_map_at(e, j);
                        lemma_index_map_at(e0, j0);
                    }
                    assert(self.index() =~= old_self.index().remove(k));
                    let c = self.contents();
                    let c0 = old_self.contents().remove(k);
                    assert forall|x: Seq<char>| #[trigger] c.contains_key(x) implies c[x] == c0[x] by {
                        let s = old_self.index()[x];
                        let j = choose|j: int| 0 <= j < e0.len() && (#[trigger] e0[j]).0@ == x;
                        lemma_index_map_at(e0, j);
                        assert(j != p);
                        assert(s != idx);
                        assert(self.slot(s as int) == old_self.slot(s as int));
                    }
                    assert(c =~= c0);
                }
            },
            None => {
                assert(old_self.index().remove(k) =~= old_self.index());
                assert(old_self.contents().remove(k) =~= old_self.contents());
            },
        }
    }
}


/// The reply to an operation on a value of the wrong kind.
pub open spec fn wrongtype_message() -> Seq<char> {
    "WRONGTYPE Operation against a key holding the wrong kind of value"@
}

/// The WRONGTYPE error text.
pub fn wrongtype_error() -> (s: String)
    ensures
        s@ == wrongtype_message(),
{
    "WRONGTYPE Operation against a key holding the wrong kind of value".to_owned()
}

/// Changing the value, expiry or vector of the slot of one live key changes what that key maps
/// to and nothing else, and keeps the shard well formed.
proof fn lemma_update_live_slot(o: Shard, n: Shard, key: Seq<char>)
    requires
        o.wf(),
        o.index().contains_key(key),
        n.key_to_idx == o.key_to_idx,
        n.keys == o.keys,
        n.free_slots == o.free_slots,
        n.hnsw == o.hnsw,
        n.values@.len() == o.values@.len(),
        n.expiries@.len() == o.expiries@.len(),
        n.vectors@.len() == o.vectors@.len(),
        forall|j: int|
            0 <= j < o.len() && j != o.index()[key] ==> #[trigger] n.values@[j] == o.values@[j]
                && n.expiries@[j] == o.expiries@[j] && n.vector_at(j) == o.vector_at(j),
        n.values@[o.index()[key] as int].wf(),
    ensures
        n.wf(),
        n.index() == o.index(),
        n.contents() == o.contents().insert(
            key,
            EntryView {
                value: n.values@[o.index()[key] as int]@,
                expiry: n.expiries@[o.index()[key] as int],
                vector: n.vector_at(o.index()[key] as int),
            },
        ),
{
    let i = o.index()[key];
    let e = o.key_to_idx@;
    let j = choose|j: int| 0 <= j < e.len() && (#[trigger] e[j]).0@ == key;
    lemma_index_map_at(e, j);
    assert forall|a: int| 0 <= a < o.free_slots@.len() implies n.values@[#[trigger] o.free_slots@[a] as int]
        is Empty by {
        assert(e[j].1 != o.free_slots@[a]);
    }
    assert forall|b: int| 0 <= b < n.values@.len() implies (#[trigger] n.values@[b]).wf() by {
        if b != i {
            assert(o.values@[b].wf());
        }
    }
    assert forall|b: int| 0 <= b < n.values@.len() && !slot_indexed(n.key_to_idx@, b) implies (
    #[trigger] n.values@[b]) is Empty by {
        if b == i {
            assert(slot_indexed(e, b));
        } else {
            assert(o.values@[b] is Empty);
        }
    }
    let c = n.contents();
    let c0 = o.contents().insert(
        key,
        EntryView {
            value: n.values@[i as int]@,
            expiry: n.expiries@[i as int],
            vector: n.vector_at(i as int),
        },
    );
    assert forall|x: Seq<char>| #[trigger] c.contains_key(x) implies c[x] == c0[x] by {
        if x != key {
            let q = choose|q: int| 0 <= q < e.len() && (#[trigger] e[q]).0@ == x;
            lemma_index_map_at(e, q);
            assert(e[q].1 != e[j].1);
        }
    }
    assert(c =~= c0);
}

/// GET's answer: the value and expiry time of a live key, nothing for any other key.
pub open spec fn get_answer(c: Map<Seq<char>, EntryView>, key: Seq<char>, r: Option<(DbValue, Option<u64>)>) -> bool {
    &&& (r is None <==> !c.contains_key(key))
    &&& (r matches Some((v, e)) ==> v@ == c[key].value && e == c[key].expiry && v.wf())
}

/// EXPIRE's effect: a live key gets the new expiry time and the answer is `true`; for any
/// other key nothing changes and the answer is `false`.
pub open spec fn expire_effect(
    c: Map<Seq<char>, EntryView>,
    c2: Map<Seq<char>, EntryView>,
    key: Seq<char>,
    at: u64,
    found: bool,
) -> bool {
    &&& found == c.contains_key(key)
    &&& found ==> c2 == c.insert(key, EntryView { expiry: Some(at), ..c[key] })
    &&& !found ==> c2 == c
}

/// HGET's answer matches `hget_result`.
pub open spec fn hget_answer(
    c: Map<Seq<char>, EntryView>,
    key: Seq<char>,
    field: Seq<char>,
    now: u64,
    r: Result<Option<String>, String>,
) -> bool {
    match (r, hget_result(c, key, field, now)) {
        (Ok(Some(v)), Ok(Some(w))) => v@ == w,
        (Ok(None), Ok(None)) => true,
        (Err(e), Err(f)) => e@ == f,
        _ => false,
    }
}

/// What HGET answers: nothing for a missing or expired key or a missing field, the field's
/// value for a hash, and the WRONGTYPE error for any other kind of value.
pub open spec fn hget_result(c: Map<Seq<char>, EntryView>, key: Seq<char>, field: Seq<char>, now: u64) -> Result<
    Option<Seq<char>>,
    Seq<char>,
> {
    if !c.contains_key(key) || is_expired(c[key].expiry, now) {
        Ok(None)
    } else {
        match c[key].value {
            ValueView::Fields(m) => Ok(
                if m.contains_key(field) {
                    Some(m[field])
                } else {
                    None
                },
            ),
            _ => Err(wrongtype_message()),
        }
    }
}

impl Shard {
    /// The value and expiry time of `key` (expired or not), if it is live.
    pub fn get(&self, key: &str) -> (r: Option<(DbValue, Option<u64>)>)
        requires
            self.wf(),
        ensures
            get_answer(self.contents(), key@, r),
    {
        match self.slot_of(key) {
            Some(i) => Some((self.values[i].duplicate(), self.expiries[i])),
            None => None,
        }
    }

    /// Sets the expiry time of a live key; answers whether the key was live.
    pub fn expire(&mut self, key: &str, expire_at: u64) -> (found: bool)
        requires
            old(self).wf(),
        ensures
            final(self).wf(),
            expire_effect(old(self).contents(), final(self).contents(), key@, expire_at, found),
            !found ==> *final(self) == *old(self),
            found ==> only_slot_changed(*old(self), *final(self), old(self).index()[key@] as int),
    {
        match self.slot_of(key) {
            Some(i) => {
                let ghost o = *self;
                self.expiries.set(i, Some(expire_at));
                proof {
                    lemma_update_live_slot(o, *self, key@);
                    assert(EntryView { expiry: Some(expire_at), ..o.contents()[key@] } == EntryView {
                        value: self.values@[i as int]@,
                        expiry: self.expiries@[i as int],
                        vector: self.vector_at(i as int),
                    });
                }
                true
            },
            None => false,
        }
    }

    /// HGET: the value of `field` in the hash under `key`, judged at time `now`.
    pub fn hget(&self, key: &str, field: &str, now: u64) -> (r: Result<Option<String>, String>)
        requires
            self.wf(),
        ensures
            hget_answer(self.contents(), key@, field@, now, r),
    {
        match self.slot_of(key) {
            Some(i) => {
                let expired = match self.expiries[i] {
                    Some(exp) => exp != 0 && exp <= now,
                    None => false,
                };
                if expired {
                    Ok(None)
                } else {
                    assert(self.values@[i as int].wf());
                    match &self.values[i] {
                        DbValue::Hash(h) => Ok(crate::value::hash_get(h, field)),
                        _ => Err(wrongtype_error()),
                    }
                }
            },
            None => Ok(None),
        }
    }
}


/// What HSET leaves under the key: the hash with the field set (a new hash when the key is
/// missing or its slot is empty), and whether the field is new; WRONGTYPE for other kinds.
pub open spec fn hset_result(c: Map<Seq<char>, EntryView>, key: Seq<char>, field: Seq<char>, value: Seq<char>) -> Result<
    (bool, Map<Seq<char>, Seq<char>>),
    Seq<char>,
> {
    let fresh = Map::<Seq<char>, Seq<char>>::empty().insert(field, value);
    if c.contains_key(key) {
        match c[key].value {
            ValueView::Fields(m) => Ok((!m.contains_key(field), m.insert(field, value))),
            ValueView::Empty => Ok((true, fresh)),
            _ => Err(wrongtype_message()),
        }
    } else {
        Ok((true, fresh))
    }
}

/// What LPUSH leaves under the key: the list with `value` in front (a new list when the key
/// is missing or its slot is empty); WRONGTYPE for other kinds.
pub open spec fn lpush_result(c: Map<Seq<char>, EntryView>, key: Seq<char>, value: Seq<char>) -> Result<
    Seq<Seq<char>>,
    Seq<char>,
> {
    if c.contains_key(key) {
        match c[key].value {
            ValueView::List(l) => Ok(seq![value] + l),
            ValueView::Empty => Ok(seq![value]),
            _ => Err(wrongtype_message()),
        }
    } else {
        Ok(seq![value])
    }
}

/// The expiry a key keeps through HSET and LPUSH: its own if live, none if new.
pub open spec fn kept_expiry(c: Map<Seq<char>, EntryView>, key: Seq<char>) -> Option<u64> {
    if c.contains_key(key) {
        c[key].expiry
    } else {
        None
    }
}

/// HSET's effect and answer match `hset_result`; on WRONGTYPE nothing changes.
pub open spec fn hset_effect(
    c: Map<Seq<char>, EntryView>,
    c2: Map<Seq<char>, EntryView>,
    key: Seq<char>,
    field: Seq<char>,
    value: Seq<char>,
    vector: Seq<u32>,
    r: Result<(bool, DbValue), String>,
) -> bool {
    match (r, hset_result(c, key, field, value)) {
        (Ok((is_new, v)), Ok((n, m))) => is_new == n && v@ == ValueView::Fields(m) && v.wf() && c2
            == c.insert(
            key,
            EntryView { value: ValueView::Fields(m), expiry: kept_expiry(c, key), vector: vector },
        ),
        (Err(e), Err(f)) => e@ == f && c2 == c,
        _ => false,
    }
}

/// LPUSH's effect and answer match `lpush_result`; on WRONGTYPE nothing changes.
pub open spec fn lpush_effect(
    c: Map<Seq<char>, EntryView>,
    c2: Map<Seq<char>, EntryView>,
    key: Seq<char>,
    value: Seq<char>,
    vector: Seq<u32>,
    r: Result<(usize, DbValue), String>,
) -> bool {
    match (r, lpush_result(c, key, value)) {
        (Ok((n, v)), Ok(l)) => n == l.len() && v@ == ValueView::List(l) && v.wf() && c2 == c.insert(
            key,
            EntryView { value: ValueView::List(l), expiry: kept_expiry(c, key), vector: vector },
        ),
        (Err(e), Err(f)) => e@ == f && c2 == c,
        _ => false,
    }
}

/// The vector of a live, unexpired key whose value is not empty; nothing otherwise.
pub open spec fn vector_answer(c: Map<Seq<char>, EntryView>, key: Seq<char>, now: u64, r: Option<Vec<u32>>) -> bool {
    &&& (r is Some <==> (c.contains_key(key) && !(c[key].value is Empty) && !is_expired(
        c[key].expiry,
        now,
    )))
    &&& (r matches Some(v) ==> v@ == c[key].vector)
}

impl Shard {
    /// What a shard search answers for these scores.
    pub open spec fn search_answer(&self, scores: Seq<Option<u64>>, k: usize, r: Seq<(usize, String)>) -> bool {
        let g = self.hnsw.graph();
        let best = greedy_result(g, scores, self.hnsw.entry_point->0 as int);
        &&& r.len() <= 1
        &&& r.len() <= k
        &&& (r.len() == 1 <==> (k > 0 && self.hnsw.entry_point is Some && best < self.len() && !(
        self.values@[best] is Empty)))
        &&& (r.len() == 1 ==> r[0].0 == best && r[0].1@ == self.keys@[best]@)
        &&& (r.len() == 1 ==> self.index().contains_key(r[0].1@) && self.index()[r[0].1@] == r[0].0)
        &&& (r.len() == 1 ==> forall|k: int|
            0 <= k < g[best][0].len() ==> !better(#[trigger] scores[g[best][0][k] as int], scores[best]))
        &&& (r.len() == 1 ==> forall|k: int|
            0 <= k < g[self.hnsw.entry_point->0 as int][0].len() ==> !better(
                #[trigger] scores[g[self.hnsw.entry_point->0 as int][0][k] as int],
                scores[best],
            ))
    }

    /// HSET: sets `field` to `value` in the hash under `key` and replaces the key's vector.
    /// Answers whether the field is new, with a copy of the whole hash.
    pub fn hset(&mut self, key: String, field: String, value: String, vector: Vec<u32>) -> (r: Result<
        (bool, DbValue),
        String,
    >)
        requires
            old(self).wf(),
            vector@.len() == VECTOR_DIM,
        ensures
            final(self).wf(),
            hset_effect(old(self).contents(), final(self).contents(), key@, field@, value@, vector@, r),
            r is Err ==> *final(self) == *old(self),
            r is Ok && old(self).index().contains_key(key@) ==> only_slot_changed(
                *old(self),
                *final(self),
                old(self).index()[key@] as int,
            ),
            !old(self).index().contains_key(key@) ==> store_effect(
                *old(self),
                *final(self),
                key@,
                EntryView {
                    value: ValueView::Fields(Map::<Seq<char>, Seq<char>>::empty().insert(field@, value@)),
                    expiry: None,
                    vector: vector@,
                },
            ),
    {
        let ghost o = *self;
        let ghost c = self.contents();
        match self.slot_of(key.as_str()) {
            Some(i) => {
                let fits = match &self.values[i] {
                    DbValue::Hash(_) => true,
                    DbValue::Empty => true,
                    _ => false,
                };
                if !fits {
                    return Err(wrongtype_error());
                }
                let mut cur = DbValue::Empty;
                self.values.set_and_swap(i, &mut cur);
                assert(cur == o.values@[i as int]);
                assert(cur.wf());
                match cur {
                    DbValue::Hash(mut h) => {
                        let is_new = hash_insert(&mut h, field, value);
                        let reply = DbValue::Hash(copy_fields(&h));
                        self.values.set(i, DbValue::Hash(h));
                        self.write_vector(i, &vector);
                        proof {
                            lemma_update_live_slot(o, *self, key@);
                        }
                        Ok((is_new, reply))
                    },
                    DbValue::Empty => {
                        let val = single_field_hash(field, value);
                        self.values.set(i, val.duplicate());
                        self.write_vector(i, &vector);
                        proof {
                            lemma_update_live_slot(o, *self, key@);
                        }
                        Ok((true, val))
                    },
                    other => {
                        proof {
                            assert(false);
                        }
                        self.values.set(i, other);
                        Err(wrongtype_error())
                    },
                }
            },
            None => {
                let val = single_field_hash(field, value);
                let stored = val.duplicate();
                self.insert_data(key, stored, None, vector);
                Ok((true, val))
            },
        }
    }

    /// LPUSH: puts `value` in front of the list under `key` and replaces the key's vector.
    /// Answers the new length of the list, with a copy of it.
    pub fn lpush(&mut self, key: String, value: String, vector: Vec<u32>) -> (r: Result<(usize, DbValue), String>)
        requires
            old(self).wf(),
            vector@.len() == VECTOR_DIM,
        ensures
            final(self).wf(),
            lpush_effect(old(self).contents(), final(self).contents(), key@, value@, vector@, r),
            r is Err ==> *final(self) == *old(self),
            r is Ok && old(self).index().contains_key(key@) ==> only_slot_changed(
                *old(self),
                *final(self),
                old(self).index()[key@] as int,
            ),
            !old(self).index().contains_key(key@) ==> store_effect(
                *old(self),
                *final(self),
                key@,
                EntryView { value: ValueView::List(seq![value@]), expiry: None, vector: vector@ },
            ),
    {
        let ghost o = *self;
        let ghost vv = value@;
        match self.slot_of(key.as_str()) {
            Some(i) => {
                let fits = match &self.values[i] {
                    DbValue::List(_) => true,
                    DbValue::Empty => true,
                    _ => false,
                };
                if !fits {
                    return Err(wrongtype_error());
                }
                let mut cur = DbValue::Empty;
                self.values.set_and_swap(i, &mut cur);
                assert(cur == o.values@[i as int]);
                match cur {
                    DbValue::List(mut l) => {
                        let ghost l0 = l@;
                        l.insert(0, value);
                        assert(strings_view(l@) =~= seq![vv] + strings_view(l0));
                        let n = l.len();
                        let reply = DbValue::List(copy_strings(&l));
                        self.values.set(i, DbValue::List(l));
                        self.write_vector(i, &vector);
                        proof {
                            lemma_update_live_slot(o, *self, key@);
                        }
                        Ok((n, reply))
                    },
                    DbValue::Empty => {
                        let mut l: Vec<String> = Vec::new();
                        l.push(value);
                        assert(strings_view(l@) =~= seq![vv]);
                        let val = DbValue::List(l);
                        self.values.set(i, val.duplicate());
                        self.write_vector(i, &vector);
                        proof {
                            lemma_update_live_slot(o, *self, key@);
                        }
                        Ok((1, val))
                    },
                    other => {
                        proof {
                            assert(false);
                        }
                        self.values.set(i, other);
                        Err(wrongtype_error())
                    },
                }
            },
            None => {
                let mut l: Vec<String> = Vec::new();
                l.push(value);
                assert(strings_view(l@) =~= seq![vv]);
                let val = DbValue::List(l);
                let stored = val.duplicate();
                self.insert_data(key, stored, None, vector);
                Ok((1, val))
            },
        }
    }

    /// A copy of the components of the vector of slot `i`.
    pub fn vector_of_slot(&self, i: usize) -> (r: Vec<u32>)
        requires
            self.wf(),
            i < self.len(),
        ensures
            r@ == self.vector_at(i as int),
    {
        let vl = self.vectors.len();
        proof {
            lemma_slot_range(i as int, self.values@.len() as int);
        }
        assert(i * VECTOR_DIM + VECTOR_DIM <= vl);
        let start = i * VECTOR_DIM;
        crate::text::slice_u32(&self.vectors, start, start + VECTOR_DIM)
    }

    /// The vector of a live key whose value is not empty and whose expiry time has not passed
    /// at `now`.
    pub fn get_vector(&self, key: &str, now: u64) -> (r: Option<Vec<u32>>)
        requires
            self.wf(),
        ensures
            vector_answer(self.contents(), key@, now, r),
    {
        match self.slot_of(key) {
            Some(i) => {
                let expired = match self.expiries[i] {
                    Some(exp) => exp != 0 && exp <= now,
                    None => false,
                };
                if !(self.values[i].is_empty()) && !expired {
                    Some(self.vector_of_slot(i))
                } else {
                    None
                }
            },
            None => None,
        }
    }

    /// Similarity search within the shard, for at most `k` results: the node where the greedy
    /// graph walk stops, with its key, unless `k` is zero, the graph is empty, the node is not
    /// a slot, or the slot is empty. `scores[i]` is how well slot `i` matches the query.
    pub fn search(&self, scores: &Vec<Option<u64>>, k: usize) -> (r: Vec<(usize, String)>)
        requires
            self.wf(),
            scores.len() == self.hnsw.nodes.len(),
        ensures
            self.search_answer(scores@, k, r@),
    {
        let raw = self.hnsw.search(scores, k);
        let mut out: Vec<(usize, String)> = Vec::new();
        if raw.len() == 1 {
            let idx = raw[0];
            if idx < self.keys.len() {
                if !self.values[idx].is_empty() {
                    out.push((idx, self.keys[idx].clone()));
                    proof {
                        let e = self.key_to_idx@;
                        assert(self.values@[idx as int] !is Empty);
                        assert(slot_indexed(e, idx as int));
                        let j = choose|j: int| 0 <= j < e.len() && (#[trigger] e[j]).1 == idx;
                        lemma_index_map_at(e, j);
                        assert(self.keys@[idx as int]@ == e[j].0@);
                    }
                }
            }
        }
        out
    }
}


impl Shard {
    /// The live keys whose expiry time has passed at `now`, each once (in no promised order).
    pub fn expired_keys(&self, now: u64) -> (r: Vec<String>)
        requires
            self.wf(),
        ensures
            strings_view(r@).no_duplicates(),
            forall|k: Seq<char>|
                #![trigger strings_view(r@).contains(k)]
                strings_view(r@).contains(k) <==> (self.contents().contains_key(k) && is_expired(
                    self.contents()[k].expiry,
                    now,
                )),
    {
        let ghost e = self.key_to_idx@;
        let mut r: Vec<String> = Vec::new();
        let mut i: usize = 0;
        while i < self.key_to_idx.len()
            invariant
                self.wf(),
                e == self.key_to_idx@,
                i <= e.len(),
                strings_view(r@).no_duplicates(),
                forall|x: Seq<char>|
                    #![trigger strings_view(r@).contains(x)]
                    strings_view(r@).contains(x) <==> exists|j: int|
                        0 <= j < i && (#[trigger] e[j]).0@ == x && is_expired(
                            self.expiries@[e[j].1 as int],
                            now,
                        ),
            decreases e.len() - i,
        {
            let idx = self.key_to_idx[i].1;
            let expired = match self.expiries[idx] {
                Some(exp) => exp != 0 && exp <= now,
                None => false,
            };
            if expired {
                let ghost before = strings_view(r@);
                let k = self.key_to_idx[i].0.clone();
                proof {
                    if before.contains(k@) {
                        let j = choose|j: int|
                            0 <= j < i && (#[trigger] e[j]).0@ == k@ && is_expired(
                                self.expiries@[e[j].1 as int],
                                now,
                            );
                        assert(e[j].0@ != e[i as int].0@);
                    }
                }
                r.push(k);
                proof {
                    assert(strings_view(r@) =~= before.push(k@));
                    assert forall|x: Seq<char>| #![trigger strings_view(r@).contains(x)] strings_view(r@).contains(x) <==> exists|j: int|
                        0 <= j < i + 1 && (#[trigger] e[j]).0@ == x && is_expired(
                            self.expiries@[e[j].1 as int],
                            now,
                        ) by {
                        if x == k@ {
                            assert(strings_view(r@)[before.len() as int] == x);
                        }
                        if strings_view(r@).contains(x) && x != k@ {
                            let q = choose|q: int| 0 <= q < strings_view(r@).len() && strings_view(r@)[q] == x;
                            assert(before[q] == x);
                        }
                        if before.contains(x) {
                            let q = choose|q: int| 0 <= q < before.len() && before[q] == x;
                            assert(strings_view(r@)[q] == x);
                        }
                    }
                }
            } else {
                proof {
                    assert forall|x: Seq<char>| #![trigger strings_view(r@).contains(x)] strings_view(r@).contains(x) <==> exists|j: int|
                        0 <= j < i + 1 && (#[trigger] e[j]).0@ == x && is_expired(
                            self.expiries@[e[j].1 as int],
                            now,
                        ) by {
                        if exists|j: int|
                            0 <= j < i + 1 && (#[trigger] e[j]).0@ == x && is_expired(
                                self.expiries@[e[j].1 as int],
                                now,
                            ) {
                            let j = choose|j: int|
                                0 <= j < i + 1 && (#[trigger] e[j]).0@ == x && is_expired(
                                    self.expiries@[e[j].1 as int],
                                    now,
                                );
                            assert(j != i);
                        }
                    }
                }
            }
            i += 1;
        }
        proof {
            assert forall|k: Seq<char>| #![trigger strings_view(r@).contains(k)] strings_view(r@).contains(k) <==> (self.contents().contains_key(k)
                && is_expired(self.contents()[k].expiry, now)) by {
                if self.contents().contains_key(k) {
                    let j = choose|j: int| 0 <= j < e.len() && (#[trigger] e[j]).0@ == k;
                    lemma_index_map_at(e, j);
                }
                if strings_view(r@).contains(k) {
                    let j = choose|j: int|
                        0 <= j < e.len() && (#[trigger] e[j]).0@ == k && is_expired(
                            self.expiries@[e[j].1 as int],
                            now,
                        );
                    lemma_index_map_at(e, j);
                }
            }
        }
        r
    }

    /// The live keys whose slot holds a value, each once with its slot (in no promised order).
    pub fn live_entries(&self) -> (r: Vec<(String, usize)>)
        requires
            self.wf(),
        ensures
            index_keys_distinct(r@),
            forall|j: int| 0 <= j < r@.len() ==> (#[trigger] r@[j]).1 < self.len(),
            forall|k: Seq<char>|
                #[trigger] index_map(r@).contains_key(k) <==> (self.index().contains_key(k)
                    && !(self.values@[self.index()[k] as int] is Empty)),
            forall|k: Seq<char>|
                #[trigger] index_map(r@).contains_key(k) ==> index_map(r@)[k] == self.index()[k],
    {
        let ghost e = self.key_to_idx@;
        let mut r: Vec<(String, usize)> = Vec::new();
        let mut i: usize = 0;
        while i < self.key_to_idx.len()
            invariant
                self.wf(),
                e == self.key_to_idx@,
                i <= e.len(),
                r@.len() <= i,
                forall|q: int|
                    0 <= q < r@.len() ==> exists|j: int| 0 <= j < i && #[trigger] r@[q] == #[trigger] e[j],
                forall|j: int|
                    0 <= j < i && !(self.values@[(#[trigger] e[j]).1 as int] is Empty) ==> r@.contains(e[j]),
                forall|q: int| 0 <= q < r@.len() ==> !(self.values@[(#[trigger] r@[q]).1 as int] is Empty),
                forall|a: int, b: int|
                    0 <= a < r@.len() && 0 <= b < r@.len() && a != b ==> (#[trigger] r@[a]).0@ != (
                    #[trigger] r@[b]).0@,
                forall|q: int| 0 <= q < r@.len() ==> forall|j: int| i <= j < e.len() ==> (#[trigger] r@[q]).0@ != (#[trigger] e[j]).0@,
            decreases e.len() - i,
        {
            let idx = self.key_to_idx[i].1;
            if !self.values[idx].is_empty() {
                let k = self.key_to_idx[i].0.clone();
                let ghost before = r@;
                r.push((k, idx));
                proof {
                    assert(r@[before.len() as int] == e[i as int]);
                    assert forall|q: int| 0 <= q < r@.len() implies exists|j: int| 0 <= j < i + 1 && #[trigger] r@[q] == #[trigger] e[j] by {
                        if q < before.len() {
                            assert(r@[q] == before[q]);
                        } else {
                            assert(r@[q] == e[i as int]);
                        }
                    }
                    assert forall|j: int| 0 <= j < i + 1 && !(self.values@[(#[trigger] e[j]).1 as int] is Empty) implies r@.contains(e[j]) by {
                        if j < i {
                            let q = choose|q: int| 0 <= q < before.len() && before[q] == e[j];
                            assert(r@[q] == e[j]);
                        } else {
                            assert(r@[before.len() as int] == e[j]);
                        }
                    }
                    assert forall|a: int, b: int| 0 <= a < r@.len() && 0 <= b < r@.len() && a != b implies (#[trigger] r@[a]).0@ != (#[trigger] r@[b]).0@ by {
                        if a < before.len() && b < before.len() {
                            assert(before[a].0@ != before[b].0@);
                        } else if a < before.len() {
                            assert(before[a].0@ != e[i as int].0@);
                        } else if b < before.len() {
                            assert(before[b].0@ != e[i as int].0@);
                        }
                    }
                    assert forall|q: int| 0 <= q < r@.len() implies forall|j: int| i + 1 <= j < e.len() ==> (#[trigger] r@[q]).0@ != (#[trigger] e[j]).0@ by {
                        if q < before.len() {
                            assert(r@[q] == before[q]);
                        } else {
                            assert forall|j: int| i + 1 <= j < e.len() implies r@[q].0@ != (#[trigger] e[j]).0@ by {
                                assert(e[i as int].0@ != e[j].0@);
                            }
                        }
                    }
                }
            }
            i += 1;
        }
        proof {
            assert forall|k: Seq<char>|
                #![trigger index_map(r@).contains_key(k)]
                (index_map(r@).contains_key(k) <==> (self.index().contains_key(k)
                    && !(self.values@[self.index()[k] as int] is Empty))) && (index_map(r@).contains_key(k) ==> index_map(r@)[k] == self.index()[k]) by {
                if index_map(r@).contains_key(k) {
                    let q = choose|q: int| 0 <= q < r@.len() && (#[trigger] r@[q]).0@ == k;
                    lemma_index_map_at(r@, q);
                    let j = choose|j: int| 0 <= j < e.len() && #[trigger] r@[q] == #[trigger] e[j];
                    lemma_index_map_at(e, j);
                }
                if self.index().contains_key(k) && !(self.values@[self.index()[k] as int] is Empty) {
                    let j = choose|j: int| 0 <= j < e.len() && (#[trigger] e[j]).0@ == k;
                    lemma_index_map_at(e, j);
                    assert(r@.contains(e[j]));
                    let q = choose|q: int| 0 <= q < r@.len() && r@[q] == e[j];
                    lemma_index_map_at(r@, q);
                }
            }
        }
        r
    }
}


/// Counts over the slots that hold a value.
#[derive(Clone, Debug)]
pub struct SlotStats {
    pub strings: u64,
    pub lists: u64,
    pub sets: u64,
    pub hashes: u64,
    /// Expiry time after `now` and no later than [`hour_after`] it.
    pub expiring_soon: u64,
    /// Slots holding a value.
    pub active: u64,
}

/// An hour (3600 seconds) after `now`, wrapping around past `u64::MAX` as the server's release
/// build adds.
pub open spec fn hour_after(now: u64) -> int {
    if now + 3600 <= u64::MAX {
        now + 3600
    } else {
        now + 3600 - (u64::MAX + 1)
    }
}

/// The counts of a run of slots (values and expiry times side by side).
pub open spec fn tally(vals: Seq<DbValue>, exps: Seq<Option<u64>>, now: u64) -> (nat, nat, nat, nat, nat, nat)
    decreases vals.len(),
{
    if vals.len() == 0 {
        (0, 0, 0, 0, 0, 0)
    } else {
        let t = tally(vals.drop_last(), exps.take(vals.len() - 1), now);
        let v = vals.last();
        let e = exps[vals.len() - 1];
        if v is Empty {
            t
        } else {
            let soon: nat = if e matches Some(x) && x > now && x <= hour_after(now) {
                1
            } else {
                0
            };
            (
                t.0 + if v is String { 1nat } else { 0nat },
                t.1 + if v is List { 1nat } else { 0nat },
                t.2 + if v is SetOf { 1nat } else { 0nat },
                t.3 + if v is Hash { 1nat } else { 0nat },
                t.4 + soon,
                t.5 + 1,
            )
        }
    }
}

/// One more slot adds one to the expiring-soon count exactly when it holds a value and its
/// expiry time `x` is after `now` and at most 3600 seconds after it (`now < x <= now + 3600`;
/// when `now + 3600` does not fit in a `u64` no slot counts); the other counts are unaffected
/// by the expiry time, each kind counting the slots that hold that kind.
pub proof fn law_tally_counts_expiring_within_the_hour(
    vals: Seq<DbValue>,
    exps: Seq<Option<u64>>,
    now: u64,
    v: DbValue,
    e: Option<u64>,
)
    requires
        vals.len() == exps.len(),
    ensures
        tally(vals.push(v), exps.push(e), now).4 == tally(vals, exps, now).4 + (if !(v is Empty) && e is Some
            && now < e->0 && now + 3600 <= u64::MAX && e->0 <= now + 3600 {
            1nat
        } else {
            0nat
        }),
        tally(vals.push(v), exps.push(e), now).5 == tally(vals, exps, now).5 + (if v is Empty {
            0nat
        } else {
            1nat
        }),
        tally(vals.push(v), exps.push(e), now).0 == tally(vals, exps, now).0 + (if v is String {
            1nat
        } else {
            0nat
        }),
        tally(vals.push(v), exps.push(e), now).1 == tally(vals, exps, now).1 + (if v is List {
            1nat
        } else {
            0nat
        }),
        tally(vals.push(v), exps.push(e), now).2 == tally(vals, exps, now).2 + (if v is SetOf {
            1nat
        } else {
            0nat
        }),
        tally(vals.push(v), exps.push(e), now).3 == tally(vals, exps, now).3 + (if v is Hash {
            1nat
        } else {
            0nat
        }),
{
    let vs = vals.push(v);
    let es = exps.push(e);
    assert(vs.drop_last() =~= vals);
    assert(es.take(vs.len() - 1) =~= exps);
    assert(vs.last() == v);
    assert(es[vs.len() - 1] == e);
}

impl Shard {
    /// Counts the slots holding a value, by kind, and those expiring within the hour (every
    /// slot holding a value is the slot of a live key).
    pub fn slot_stats(&self, now: u64) -> (r: SlotStats)
        requires
            self.wf(),
        ensures
            (r.strings as nat, r.lists as nat, r.sets as nat, r.hashes as nat, r.expiring_soon as nat, r.active as nat)
                == tally(self.values@, self.expiries@, now),
    {
        let mut r = SlotStats { strings: 0, lists: 0, sets: 0, hashes: 0, expiring_soon: 0, active: 0 };
        let bound: u64 = if now <= u64::MAX - 3600 {
            now + 3600
        } else {
            now - (u64::MAX - 3600) - 1
        };
        let mut i: usize = 0;
        assert(self.values@.take(0) =~= Seq::<DbValue>::empty());
        while i < self.values.len()
            invariant
                self.wf(),
                bound == hour_after(now),
                i <= self.values@.len(),
                (r.strings as nat, r.lists as nat, r.sets as nat, r.hashes as nat, r.expiring_soon as nat, r.active as nat)
                    == tally(self.values@.take(i as int), self.expiries@.take(i as int), now),
                r.active <= i,
                r.strings <= r.active && r.lists <= r.active && r.sets <= r.active && r.hashes <= r.active
                    && r.expiring_soon <= r.active,
            decreases self.values@.len() - i,
        {
            let ghost vs = self.values@.take(i + 1);
            let ghost es = self.expiries@.take(i + 1);
            assert(vs.drop_last() =~= self.values@.take(i as int));
            assert(es.take(i as int) =~= self.expiries@.take(i as int));
            assert(vs.last() == self.values@[i as int]);
            assert(es[i as int] == self.expiries@[i as int]);
            match &self.values[i] {
                DbValue::Empty => {},
                v => {
                    match v {
                        DbValue::String(_) => { r.strings = r.strings + 1; },
                        DbValue::List(_) => { r.lists = r.lists + 1; },
                        DbValue::SetOf(_) => { r.sets = r.sets + 1; },
                        DbValue::Hash(_) => { r.hashes = r.hashes + 1; },
                        _ => {},
                    }
                    match self.expiries[i] {
                        Some(x) => {
                            if x > now && x <= bound {
                                r.expiring_soon = r.expiring_soon + 1;
                            }
                        },
                        None => {},
                    }
                    r.active = r.active + 1;
                },
            }
            i += 1;
        }
        assert(self.values@.take(self.values@.len() as int) =~= self.values@);
        assert(self.expiries@.take(self.values@.len() as int) =~= self.expiries@);
        r
    }
}


/// Whether no string occurs twice.
pub fn strings_distinct(v: &Vec<String>) -> (b: bool)
    ensures
        b == strings_view(v@).no_duplicates(),
{
    let mut i: usize = 0;
    while i < v.len()
        invariant
            i <= v.len(),
            forall|a: int, c: int| 0 <= a < i && 0 <= c < v.len() && a != c ==> v@[a]@ != v@[c]@,
        decreases v.len() - i,
    {
        let mut j: usize = 0;
        while j < v.len()
            invariant
                i < v.len(),
                j <= v.len(),
                forall|a: int, c: int| 0 <= a < i && 0 <= c < v.len() && a != c ==> v@[a]@ != v@[c]@,
                forall|c: int| 0 <= c < j && c != i ==> v@[i as int]@ != v@[c]@,
            decreases v.len() - j,
        {
            if j != i && str_equal(v[i].as_str(), v[j].as_str()) {
                assert(strings_view(v@)[i as int] == strings_view(v@)[j as int]);
                return false;
            }
            j += 1;
        }
        i += 1;
    }
    true
}

/// Whether no field name occurs twice.
pub fn fields_are_distinct(h: &Vec<(String, String)>) -> (b: bool)
    ensures
        b == crate::value::fields_distinct(h@),
{
    let mut i: usize = 0;
    while i < h.len()
        invariant
            i <= h.len(),
            forall|a: int, c: int| 0 <= a < i && 0 <= c < h.len() && a != c ==> h@[a].0@ != h@[c].0@,
        decreases h.len() - i,
    {
        let mut j: usize = 0;
        while j < h.len()
            invariant
                i < h.len(),
                j <= h.len(),
                forall|a: int, c: int| 0 <= a < i && 0 <= c < h.len() && a != c ==> h@[a].0@ != h@[c].0@,
                forall|c: int| 0 <= c < j && c != i ==> h@[i as int].0@ != h@[c].0@,
            decreases h.len() - j,
        {
            if j != i && str_equal(h[i].0.as_str(), h[j].0.as_str()) {
                return false;
            }
            j += 1;
        }
        i += 1;
    }
    true
}

impl DbValue {
    /// Checks `wf`.
    pub fn check_wf(&self) -> (b: bool)
        ensures
            b == self.wf(),
    {
        match self {
            DbValue::SetOf(m) => strings_distinct(m),
            DbValue::Hash(h) => fields_are_distinct(h),
            _ => true,
        }
    }
}

impl HnswIndex {
    /// Checks `wf`.
    pub fn check_wf(&self) -> (b: bool)
        ensures
            b == self.wf(),
    {
        if self.config.max_layers < 1 {
            return false;
        }
        let n = self.nodes.len();
        match self.entry_point {
            Some(e) => {
                if e >= n {
                    return false;
                }
            },
            None => {},
        }
        let ghost g = self.graph();
        let mut i: usize = 0;
        while i < n
            invariant
                n == self.nodes@.len(),
                g == self.graph(),
                i <= n,
                forall|a: int| 0 <= a < i ==> (#[trigger] g[a]).len() >= 1,
                forall|a: int, k: int| 0 <= a < i && 0 <= k < g[a][0].len() ==> (#[trigger] g[a][0][k]) < n,
            decreases n - i,
        {
            let node = &self.nodes[i];
            assert(node.layers().len() == node.neighbors@.len());
            if node.neighbors.len() < 1 {
                assert(g[i as int].len() < 1);
                return false;
            }
            let l0 = &node.neighbors[0];
            assert(l0@ == g[i as int][0]);
            let mut k: usize = 0;
            while k < l0.len()
                invariant
                    n == self.nodes@.len(),
                    g == self.graph(),
                    i < n,
                    l0@ == g[i as int][0],
                    k <= l0.len(),
                    forall|q: int| 0 <= q < k ==> #[trigger] l0@[q] < n,
                decreases l0.len() - k,
            {
                if l0[k] >= n {
                    assert(g[i as int][0][k as int] >= n);
                    return false;
                }
                k += 1;
            }
            i += 1;
        }
        true
    }
}

impl Shard {
    /// Checks the shard's invariant (for a shard read back from a snapshot).
    pub fn check_wf(&self) -> (b: bool)
        ensures
            b == self.wf(),
    {
        let n = self.values.len();
        if self.keys.len() != n || self.expiries.len() != n {
            return false;
        }
        match n.checked_mul(VECTOR_DIM) {
            Some(m) => {
                if self.vectors.len() != m {
                    return false;
                }
            },
            None => {
                let vl = self.vectors.len();
                assert(self.vectors@.len() != self.values@.len() * VECTOR_DIM);
                return false;
            },
        }
        let e = &self.key_to_idx;
        let fr = &self.free_slots;
        // index entries
        let mut i: usize = 0;
        while i < e.len()
            invariant
                n == self.values@.len() == self.keys@.len(),
                e == &self.key_to_idx,
                fr == &self.free_slots,
                i <= e.len(),
                forall|a: int| 0 <= a < i ==> (#[trigger] e@[a]).1 < n && self.keys@[e@[a].1 as int]@ == e@[a].0@,
                forall|a: int, c: int| 0 <= a < i && 0 <= c < e.len() && a != c ==> e@[a].0@ != e@[c].0@ && e@[a].1 != e@[c].1,
                forall|a: int, q: int| 0 <= a < i && 0 <= q < fr.len() ==> e@[a].1 != fr@[q],
            decreases e.len() - i,
        {
            let slot = e[i].1;
            if slot >= n {
                return false;
            }
            if !str_equal(self.keys[slot].as_str(), e[i].0.as_str()) {
                return false;
            }
            let mut j: usize = 0;
            while j < e.len()
                invariant
                    e == &self.key_to_idx,
                    i < e.len(),
                    j <= e.len(),
                    slot == e@[i as int].1,
                    forall|a: int, c: int| 0 <= a < i && 0 <= c < e.len() && a != c ==> e@[a].0@ != e@[c].0@ && e@[a].1 != e@[c].1,
                    forall|c: int| 0 <= c < j && c != i ==> e@[i as int].0@ != e@[c].0@ && e@[i as int].1 != e@[c].1,
                decreases e.len() - j,
            {
                if j != i && (str_equal(e[i].0.as_str(), e[j].0.as_str()) || e[j].1 == slot) {
                    assert(!index_keys_distinct(e@) || e@[i as int].1 == e@[j as int].1);
                    return false;
                }
                j += 1;
            }
            let mut q: usize = 0;
            while q < fr.len()
                invariant
                    fr == &self.free_slots,
                    e == &self.key_to_idx,
                    i < e.len(),
                    q <= fr.len(),
                    slot == e@[i as int].1,
                    forall|c: int| 0 <= c < q ==> slot != fr@[c],
                decreases fr.len() - q,
            {
                if fr[q] == slot {
                    return false;
                }
                q += 1;
            }
            i += 1;
        }
        // free slots
        let mut a: usize = 0;
        while a < fr.len()
            invariant
                n == self.values@.len(),
                fr == &self.free_slots,
                a <= fr.len(),
                forall|x: int| 0 <= x < a ==> (#[trigger] fr@[x]) < n && self.values@[fr@[x] as int] is Empty,
                forall|x: int, y: int| 0 <= x < a && 0 <= y < fr.len() && x != y ==> fr@[x] != fr@[y],
            decreases fr.len() - a,
        {
            let f = fr[a];
            if f >= n {
                return false;
            }
            if !self.values[f].is_empty() {
                return false;
            }
            let mut c: usize = 0;
            while c < fr.len()
                invariant
                    fr == &self.free_slots,
                    a < fr.len(),
                    c <= fr.len(),
                    f == fr@[a as int],
                    forall|x: int, y: int| 0 <= x < a && 0 <= y < fr.len() && x != y ==> fr@[x] != fr@[y],
                    forall|y: int| 0 <= y < c && y != a ==> fr@[a as int] != fr@[y],
                decreases fr.len() - c,
            {
                if c != a && fr[c] == f {
                    return false;
                }
                c += 1;
            }
            a += 1;
        }
        // values
        let mut v: usize = 0;
        while v < n
            invariant
                n == self.values@.len(),
                v <= n,
                forall|x: int| 0 <= x < v ==> (#[trigger] self.values@[x]).wf(),
            decreases n - v,
        {
            if !self.values[v].check_wf() {
                return false;
            }
            v += 1;
        }
        // slots that no key points to hold nothing
        let mut w: usize = 0;
        while w < n
            invariant
                n == self.values@.len(),
                e == &self.key_to_idx,
                w <= n,
                forall|x: int|
                    0 <= x < w && !slot_indexed(e@, x) ==> (#[trigger] self.values@[x]) is Empty,
            decreases n - w,
        {
            if !self.values[w].is_empty() {
                let mut j: usize = 0;
                let mut found = false;
                while j < e.len() && !found
                    invariant
                        e == &self.key_to_idx,
                        j <= e.len(),
                        found ==> slot_indexed(e@, w as int),
                        !found ==> forall|c: int| 0 <= c < j ==> (#[trigger] e@[c]).1 != w,
                    decreases e.len() - j,
                {
                    if e[j].1 == w {
                        found = true;
                    }
                    j += 1;
                }
                if !found {
                    assert(!slot_indexed(e@, w as int));
                    assert(!(self.values@[w as int] is Empty));
                    return false;
                }
            }
            w += 1;
        }
        if !self.hnsw.check_wf() {
            return false;
        }
        proof {
            assert forall|x: int, y: int| 0 <= x < fr@.len() && 0 <= y < fr@.len() && x != y implies fr@[x] != fr@[y] by {}
            assert forall|x: int, q: int|
                0 <= x < e@.len() && 0 <= q < fr@.len() implies (#[trigger] e@[x]).1 != #[trigger] fr@[q] by {}
        }
        true
    }
}

} // verus!
