//! Properties of the store that span several operations, stated over the shard's contents.
use crate::shard::{
    expire_effect, get_answer, hget_answer, hset_effect, is_expired, kept_expiry, lemma_index_map_at,
    lpush_effect, remove_effect, slot_indexed, store_effect, EntryView, Shard,
};
use crate::hnsw::{lemma_insert_keeps_entry_cap, lemma_insert_keeps_navigable, navigable, reachable};
use crate::commands::get_reply;
use crate::resp::bulk_reply;
use crate::routing::VECTOR_DIM;
use crate::value::{DbValue, ValueView};
use vstd::prelude::*;

verus! {

/// A read after a store gives back what was stored: the value and its expiry time.
pub proof fn law_get_after_store(
    c: Map<Seq<char>, EntryView>,
    key: Seq<char>,
    x: EntryView,
    r: Option<(DbValue, Option<u64>)>,
)
    requires
        get_answer(c.insert(key, x), key, r),
    ensures
        r matches Some((v, e)) && v@ == x.value && e == x.expiry,
{
}

/// A read after a removal finds nothing.
pub proof fn law_get_after_remove(
    c: Map<Seq<char>, EntryView>,
    key: Seq<char>,
    r: Option<(DbValue, Option<u64>)>,
)
    requires
        get_answer(c.remove(key), key, r),
    ensures
        r is None,
{
}

/// A store under one key leaves every other key's answer as it was.
pub proof fn law_store_keeps_other_keys(
    c: Map<Seq<char>, EntryView>,
    key: Seq<char>,
    x: EntryView,
    other: Seq<char>,
    before: Option<(DbValue, Option<u64>)>,
    after: Option<(DbValue, Option<u64>)>,
)
    requires
        other != key,
        get_answer(c, other, before),
        get_answer(c.insert(key, x), other, after),
    ensures
        before is None <==> after is None,
        before matches Some((v, e)) ==> (after matches Some((w, f)) && v@ == w@ && e == f),
{
}

/// Removing a key undoes a store under it: what is left is what removing it alone leaves,
/// which is the contents before the store when the key was not live.
pub proof fn law_remove_undoes_store(c: Map<Seq<char>, EntryView>, key: Seq<char>, x: EntryView)
    ensures
        c.insert(key, x).remove(key) == c.remove(key),
        !c.contains_key(key) ==> c.insert(key, x).remove(key) == c,
{
    assert(c.insert(key, x).remove(key) =~= c.remove(key));
    if !c.contains_key(key) {
        assert(c.remove(key) =~= c);
    }
}

/// After a successful HSET, HGET of the same field gives the value that was set, as long as
/// the key has not expired.
pub proof fn law_hget_after_hset(
    c: Map<Seq<char>, EntryView>,
    c2: Map<Seq<char>, EntryView>,
    key: Seq<char>,
    field: Seq<char>,
    value: Seq<char>,
    vector: Seq<u32>,
    r: Result<(bool, DbValue), String>,
    now: u64,
    r2: Result<Option<String>, String>,
)
    requires
        hset_effect(c, c2, key, field, value, vector, r),
        r is Ok,
        !is_expired(kept_expiry(c, key), now),
        hget_answer(c2, key, field, now, r2),
    ensures
        r2 matches Ok(Some(v)) && v@ == value,
{
}

/// A refused HSET (the key holds another kind of value) changes nothing.
pub proof fn law_refused_hset_changes_nothing(
    c: Map<Seq<char>, EntryView>,
    c2: Map<Seq<char>, EntryView>,
    key: Seq<char>,
    field: Seq<char>,
    value: Seq<char>,
    vector: Seq<u32>,
    r: Result<(bool, DbValue), String>,
)
    requires
        hset_effect(c, c2, key, field, value, vector, r),
        r is Err,
    ensures
        c2 == c,
{
}

/// LPUSH onto a list puts the value in front and answers the list's new length, one more
/// than before.
pub proof fn law_lpush_grows_list(
    c: Map<Seq<char>, EntryView>,
    c2: Map<Seq<char>, EntryView>,
    key: Seq<char>,
    value: Seq<char>,
    vector: Seq<u32>,
    r: Result<(usize, DbValue), String>,
    l: Seq<Seq<char>>,
)
    requires
        lpush_effect(c, c2, key, value, vector, r),
        c.contains_key(key),
        c[key].value == ValueView::List(l),
    ensures
        r matches Ok((n, _)) && n == l.len() + 1,
        c2.contains_key(key),
        c2[key].value == ValueView::List(seq![value] + l),
{
}

/// Once a key's expiry time has passed, HGET finds nothing under it.
pub proof fn law_expired_key_reads_nothing(
    c: Map<Seq<char>, EntryView>,
    c2: Map<Seq<char>, EntryView>,
    key: Seq<char>,
    at: u64,
    field: Seq<char>,
    now: u64,
    r: Result<Option<String>, String>,
)
    requires
        expire_effect(c, c2, key, at, true),
        0 < at <= now,
        hget_answer(c2, key, field, now, r),
    ensures
        r matches Ok(None),
{
}

/// Every slot that holds a value is the slot of a live key: no slot is left behind holding an
/// old value.
pub proof fn law_filled_slots_are_live(s: Shard, i: int)
    requires
        s.wf(),
        0 <= i < s.len(),
        !(s.values@[i] is Empty),
    ensures
        exists|key: Seq<char>| #[trigger] s.index().contains_key(key) && s.index()[key] == i,
{
    let e = s.key_to_idx@;
    assert(slot_indexed(e, i));
    let j = choose|j: int| 0 <= j < e.len() && (#[trigger] e[j]).1 == i;
    lemma_index_map_at(e, j);
    assert(s.index().contains_key(e[j].0@) && s.index()[e[j].0@] == i);
}

/// Storing a live key again keeps it in its own slot: the number of slots and the free list
/// stay as they were.
pub proof fn law_store_again_reuses_slot(o: Shard, n: Shard, key: Seq<char>, x: EntryView)
    requires
        store_effect(o, n, key, x),
        o.index().contains_key(key),
    ensures
        n.index()[key] == o.index()[key],
        n.len() == o.len(),
        n.free_slots@ == o.free_slots@,
{
}

/// A search answers only with a live key, at that key's slot.
pub proof fn law_search_finds_live_keys(
    s: Shard,
    scores: Seq<Option<u64>>,
    k: usize,
    r: Seq<(usize, String)>,
)
    requires
        s.search_answer(scores, k, r),
        r.len() == 1,
    ensures
        s.contents().contains_key(r[0].1@),
        s.index()[r[0].1@] == r[0].0,
{
}

/// After a key is removed, no search finds it.
pub proof fn law_removed_key_is_not_found(
    o: Shard,
    n: Shard,
    key: Seq<char>,
    scores: Seq<Option<u64>>,
    k: usize,
    r: Seq<(usize, String)>,
)
    requires
        remove_effect(o, n, key),
        n.search_answer(scores, k, r),
        r.len() == 1,
    ensures
        r[0].1@ != key,
{
}

/// A store keeps the search graph navigable: every slot linked into the graph, the stored
/// key's slot when it got a link, can be reached from the entry point by a walk along layer-0
/// links. It also keeps the entry point within `m` layer-0 neighbours.
pub proof fn law_store_keeps_graph_navigable(o: Shard, n: Shard, key: Seq<char>, x: EntryView)
    requires
        o.wf(),
        navigable(o.hnsw.graph(), o.hnsw.entry_point),
        store_effect(o, n, key, x),
    ensures
        navigable(n.hnsw.graph(), n.hnsw.entry_point),
        n.hnsw.graph()[o.store_slot(key)][0].len() > 0 ==> reachable(
            n.hnsw.graph(),
            n.hnsw.entry_point->0 as int,
            o.store_slot(key),
        ),
        o.hnsw.entry_point is Some && o.hnsw.graph()[o.hnsw.entry_point->0 as int][0].len()
            <= o.hnsw.config.m ==> n.hnsw.graph()[n.hnsw.entry_point->0 as int][0].len()
            <= n.hnsw.config.m,
{
    let s = o.store_slot(key);
    assert(o.vectors@.len() == o.vectors.len());
    assert(o.len() * VECTOR_DIM <= usize::MAX);
    assert(o.len() < usize::MAX) by (nonlinear_arith)
        requires
            o.len() * VECTOR_DIM <= usize::MAX,
            VECTOR_DIM == 384,
    ;
    if o.index().contains_key(key) {
        let e = o.key_to_idx@;
        let j = choose|j: int| 0 <= j < e.len() && (#[trigger] e[j]).0@ == key;
        lemma_index_map_at(e, j);
    }
    assert(0 <= s < usize::MAX);
    lemma_insert_keeps_navigable(o.hnsw, s);
    assert(s < n.hnsw.graph().len());
    if o.hnsw.entry_point is Some && o.hnsw.graph()[o.hnsw.entry_point->0 as int][0].len()
        <= o.hnsw.config.m {
        lemma_insert_keeps_entry_cap(o.hnsw, s);
    }
}

/// SET then GET: once a string is stored under a key, GET answers with the bulk reply of that
/// string as long as the key has not expired (and nothing else changed the key).
pub proof fn law_set_then_get_replies_value(
    c: Map<Seq<char>, EntryView>,
    key: Seq<char>,
    text: Seq<char>,
    exp: Option<u64>,
    vector: Seq<u32>,
    r: Option<(DbValue, Option<u64>)>,
    now: u64,
)
    requires
        get_answer(
            c.insert(key, EntryView { value: ValueView::Str(text), expiry: exp, vector: vector }),
            key,
            r,
        ),
        !is_expired(exp, now),
    ensures
        get_reply(
            match r {
                Some((v, e)) => Some((v@, e)),
                None => None,
            },
            now,
        ) == bulk_reply(text),
{
}

} // verus!
