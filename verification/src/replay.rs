//! Replaying a whole log, as what the keys map to: each record, once its value and vector are
//! read, stores, removes or sets the expiry time of one key.
use crate::shard::{expire_effect, remove_effect, store_effect, EntryView, Shard};
use vstd::prelude::*;

verus! {

/// What one replayed record does to what the keys map to.
pub enum LogOp {
    /// A SET record: the key maps to the entry.
    Put(Seq<char>, EntryView),
    /// A DEL record: the key is removed.
    Del(Seq<char>),
    /// An EXPIRE record: a live key gets the expiry time.
    Exp(Seq<char>, u64),
}

/// The contents after one record.
pub open spec fn apply_op(c: Map<Seq<char>, EntryView>, op: LogOp) -> Map<Seq<char>, EntryView> {
    match op {
        LogOp::Put(k, x) => c.insert(k, x),
        LogOp::Del(k) => c.remove(k),
        LogOp::Exp(k, t) => if c.contains_key(k) {
            c.insert(k, EntryView { expiry: Some(t), ..c[k] })
        } else {
            c
        },
    }
}

/// The contents after replaying the records in order.
pub open spec fn replay(c: Map<Seq<char>, EntryView>, ops: Seq<LogOp>) -> Map<Seq<char>, EntryView>
    decreases ops.len(),
{
    if ops.len() == 0 {
        c
    } else {
        apply_op(replay(c, ops.drop_last()), ops.last())
    }
}

/// What a key maps to, if anything.
pub open spec fn entry_of(c: Map<Seq<char>, EntryView>, k: Seq<char>) -> Option<EntryView> {
    if c.contains_key(k) {
        Some(c[k])
    } else {
        None
    }
}

/// What one record does to what key `k` maps to.
pub open spec fn op_on_key(o: Option<EntryView>, k: Seq<char>, op: LogOp) -> Option<EntryView> {
    match op {
        LogOp::Put(j, x) => if j == k {
            Some(x)
        } else {
            o
        },
        LogOp::Del(j) => if j == k {
            None
        } else {
            o
        },
        LogOp::Exp(j, t) => if j == k {
            match o {
                Some(v) => Some(EntryView { expiry: Some(t), ..v }),
                None => None,
            }
        } else {
            o
        },
    }
}

/// What key `k` maps to after the records, from what it mapped to before.
pub open spec fn ops_on_key(o: Option<EntryView>, k: Seq<char>, ops: Seq<LogOp>) -> Option<EntryView>
    decreases ops.len(),
{
    if ops.len() == 0 {
        o
    } else {
        op_on_key(ops_on_key(o, k, ops.drop_last()), k, ops.last())
    }
}

/// The expiry time of the last EXPIRE record on `k`, if any.
pub open spec fn last_exp(k: Seq<char>, ops: Seq<LogOp>) -> Option<u64>
    decreases ops.len(),
{
    if ops.len() == 0 {
        None
    } else {
        match ops.last() {
            LogOp::Exp(j, t) => if j == k {
                Some(t)
            } else {
                last_exp(k, ops.drop_last())
            },
            _ => last_exp(k, ops.drop_last()),
        }
    }
}

/// An entry with its expiry time replaced, when there is an entry and a time.
pub open spec fn with_exp(o: Option<EntryView>, t: Option<u64>) -> Option<EntryView> {
    match (o, t) {
        (Some(v), Some(t)) => Some(EntryView { expiry: Some(t), ..v }),
        _ => o,
    }
}

/// What a key maps to after replay depends only on what it mapped to before and on the
/// records on that key.
pub proof fn lemma_replay_per_key(c: Map<Seq<char>, EntryView>, k: Seq<char>, ops: Seq<LogOp>)
    ensures
        entry_of(replay(c, ops), k) == ops_on_key(entry_of(c, k), k, ops),
    decreases ops.len(),
{
    if ops.len() > 0 {
        lemma_replay_per_key(c, k, ops.drop_last());
    }
}

/// The records on one key either fix what it maps to whatever it mapped to before (a SET or
/// DEL among them), or only set its expiry time to the last EXPIRE's.
proof fn lemma_ops_shape(k: Seq<char>, ops: Seq<LogOp>)
    ensures
        (forall|a: Option<EntryView>, b: Option<EntryView>| #[trigger] ops_on_key(a, k, ops)
            == #[trigger] ops_on_key(b, k, ops)) || (forall|a: Option<EntryView>| #[trigger] ops_on_key(
            a,
            k,
            ops,
        ) == with_exp(a, last_exp(k, ops))),
    decreases ops.len(),
{
    if ops.len() > 0 {
        let rest = ops.drop_last();
        lemma_ops_shape(k, rest);
        let op = ops.last();
        if forall|a: Option<EntryView>, b: Option<EntryView>| #[trigger] ops_on_key(a, k, rest)
            == #[trigger] ops_on_key(b, k, rest) {
            assert forall|a: Option<EntryView>, b: Option<EntryView>| #[trigger] ops_on_key(a, k, ops)
                == #[trigger] ops_on_key(b, k, ops) by {
                assert(ops_on_key(a, k, rest) == ops_on_key(b, k, rest));
            }
        } else {
            assert(forall|a: Option<EntryView>| #[trigger] ops_on_key(a, k, rest) == with_exp(
                a,
                last_exp(k, rest),
            ));
            match op {
                LogOp::Put(j, x) => {
                    if j == k {
                        assert forall|a: Option<EntryView>, b: Option<EntryView>| #[trigger] ops_on_key(
                            a,
                            k,
                            ops,
                        ) == #[trigger] ops_on_key(b, k, ops) by {}
                    } else {
                        assert forall|a: Option<EntryView>| #[trigger] ops_on_key(a, k, ops) == with_exp(
                            a,
                            last_exp(k, ops),
                        ) by {
                            assert(ops_on_key(a, k, rest) == with_exp(a, last_exp(k, rest)));
                        }
                    }
                },
                LogOp::Del(j) => {
                    if j == k {
                        assert forall|a: Option<EntryView>, b: Option<EntryView>| #[trigger] ops_on_key(
                            a,
                            k,
                            ops,
                        ) == #[trigger] ops_on_key(b, k, ops) by {}
                    } else {
                        assert forall|a: Option<EntryView>| #[trigger] ops_on_key(a, k, ops) == with_exp(
                            a,
                            last_exp(k, ops),
                        ) by {
                            assert(ops_on_key(a, k, rest) == with_exp(a, last_exp(k, rest)));
                        }
                    }
                },
                LogOp::Exp(j, t) => {
                    assert forall|a: Option<EntryView>| #[trigger] ops_on_key(a, k, ops) == with_exp(
                        a,
                        last_exp(k, ops),
                    ) by {
                        assert(ops_on_key(a, k, rest) == with_exp(a, last_exp(k, rest)));
                    }
                },
            }
        }
    }
}

/// Replaying a log twice leaves what the keys map to as replaying it once: replay is
/// idempotent, whatever the contents it starts from.
pub proof fn law_replay_is_idempotent(c: Map<Seq<char>, EntryView>, ops: Seq<LogOp>)
    ensures
        replay(replay(c, ops), ops) == replay(c, ops),
{
    let once = replay(c, ops);
    let twice = replay(once, ops);
    assert forall|k: Seq<char>| #[trigger] entry_of(twice, k) == entry_of(once, k) by {
        lemma_replay_per_key(c, k, ops);
        lemma_replay_per_key(once, k, ops);
        lemma_ops_shape(k, ops);
        let a = entry_of(c, k);
        let f = ops_on_key(a, k, ops);
        if forall|x: Option<EntryView>, y: Option<EntryView>| #[trigger] ops_on_key(x, k, ops)
            == #[trigger] ops_on_key(y, k, ops) {
            assert(ops_on_key(f, k, ops) == ops_on_key(a, k, ops));
        } else {
            assert(ops_on_key(f, k, ops) == with_exp(f, last_exp(k, ops)));
            assert(f == with_exp(a, last_exp(k, ops)));
        }
    }
    assert forall|k: Seq<char>| #[trigger] twice.contains_key(k) <==> once.contains_key(k) by {
        assert(entry_of(twice, k) == entry_of(once, k));
    }
    assert forall|k: Seq<char>| #[trigger] twice.contains_key(k) implies twice[k] == once[k] by {
        assert(entry_of(twice, k) == entry_of(once, k));
    }
    assert(twice =~= once);
}

/// The records a rewrite writes for a shard: a SET of each listed key with what it maps to.
pub open spec fn rewrite_ops(s: Shard, keys: Seq<Seq<char>>) -> Seq<LogOp> {
    keys.map_values(|k: Seq<char>| LogOp::Put(k, s.contents()[k]))
}

/// Replaying, from nothing, the SET records a rewrite writes for a list of live keys gives
/// back exactly what those keys map to.
pub proof fn law_rewrite_then_replay(s: Shard, keys: Seq<Seq<char>>)
    requires
        forall|j: int| 0 <= j < keys.len() ==> s.contents().contains_key(#[trigger] keys[j]),
    ensures
        replay(Map::empty(), rewrite_ops(s, keys)) == s.contents().restrict(keys.to_set()),
    decreases keys.len(),
{
    let c = s.contents();
    if keys.len() == 0 {
        assert(keys.to_set() =~= Set::<Seq<char>>::empty());
        assert(c.restrict(keys.to_set()) =~= Map::<Seq<char>, EntryView>::empty());
    } else {
        let rest = keys.drop_last();
        let k = keys.last();
        law_rewrite_then_replay(s, rest);
        assert(rewrite_ops(s, keys).drop_last() =~= rewrite_ops(s, rest));
        assert(c.contains_key(k)) by {
            assert(keys[keys.len() - 1] == k);
        }
        assert(keys.to_set() =~= rest.to_set().insert(k)) by {
            assert(keys =~= rest.push(k));
            vstd::seq_lib::lemma_seq_contains_after_push(rest, k, k);
            assert forall|x: Seq<char>| keys.to_set().contains(x) <==> rest.to_set().insert(k).contains(x) by {
                if keys.contains(x) {
                    let i = choose|i: int| 0 <= i < keys.len() && keys[i] == x;
                    if i < rest.len() {
                        assert(rest[i] == x);
                    }
                }
                if rest.contains(x) {
                    let i = choose|i: int| 0 <= i < rest.len() && rest[i] == x;
                    assert(keys[i] == x);
                }
            }
        }
        assert(c.restrict(rest.to_set()).insert(k, c[k]) =~= c.restrict(keys.to_set()));
    }
}

/// Each record replayed through the shard worker makes the change `apply_op` says: a store is
/// `Put`, a removal `Del`, an expiry `Exp`.
pub proof fn law_worker_applies_ops(o: Shard, n: Shard, op: LogOp, found: bool)
    requires
        match op {
            LogOp::Put(k, x) => store_effect(o, n, k, x),
            LogOp::Del(k) => remove_effect(o, n, k),
            LogOp::Exp(k, t) => expire_effect(o.contents(), n.contents(), k, t, found),
        },
    ensures
        n.contents() == apply_op(o.contents(), op),
{
}

/// The key a record is on.
pub open spec fn op_key(op: LogOp) -> Seq<char> {
    match op {
        LogOp::Put(k, _) => k,
        LogOp::Del(k) => k,
        LogOp::Exp(k, _) => k,
    }
}

/// A key that no record is on maps after replay to what it mapped to before.
pub proof fn law_replay_keeps_other_keys(c: Map<Seq<char>, EntryView>, k: Seq<char>, ops: Seq<LogOp>)
    requires
        forall|i: int| 0 <= i < ops.len() ==> op_key(#[trigger] ops[i]) != k,
    ensures
        entry_of(replay(c, ops), k) == entry_of(c, k),
    decreases ops.len(),
{
    if ops.len() > 0 {
        assert forall|i: int| 0 <= i < ops.drop_last().len() implies op_key(#[trigger] ops.drop_last()[i]) != k by {
            assert(ops.drop_last()[i] == ops[i]);
        }
        law_replay_keeps_other_keys(c, k, ops.drop_last());
        assert(op_key(ops[ops.len() - 1]) != k);
    }
}

} // verus!
