//! The requests a shard's worker serves, and how one request changes the shard.
use crate::routing::VECTOR_DIM;
use crate::shard::{
    expire_effect, get_answer, hget_answer, hset_effect, lpush_effect, only_slot_changed,
    remove_effect, store_effect, vector_answer, EntryView, Shard,
};
use crate::value::ValueView;
use crate::value::DbValue;
use vstd::prelude::*;

verus! {

/// A request to one shard (the snapshot requests, which copy or replace the whole shard,
/// are served by the worker loop itself).
#[allow(inconsistent_fields)]
pub enum ShardCommand {
    Store { key: String, value: DbValue, exp: Option<u64>, vector: Vec<u32> },
    Get { key: String },
    Remove { key: String },
    Expire { key: String, expire_at: u64 },
    HGet { key: String, field: String },
    HSet { key: String, field: String, value: String, vector: Vec<u32> },
    LPush { key: String, value: String, vector: Vec<u32> },
    Search { scores: Vec<Option<u64>>, k: usize },
    GetVector { key: String },
}

/// The answer to a request.
pub enum ShardReply {
    Done,
    Value(Option<(DbValue, Option<u64>)>),
    Expired(bool),
    Field(Result<Option<String>, String>),
    HashSet(Result<(bool, DbValue), String>),
    ListPush(Result<(usize, DbValue), String>),
    Found(Vec<(usize, String)>),
    Vector(Option<Vec<u32>>),
}

impl ShardCommand {
    /// The request carries vectors of the right length, a well formed value, and one score per
    /// graph node of the shard it goes to.
    pub open spec fn fits(&self, s: Shard) -> bool {
        match self {
            ShardCommand::Store { value, vector, .. } => value.wf() && vector@.len() == VECTOR_DIM,
            ShardCommand::HSet { vector, .. } => vector@.len() == VECTOR_DIM,
            ShardCommand::LPush { vector, .. } => vector@.len() == VECTOR_DIM,
            ShardCommand::Search { scores, .. } => scores@.len() == s.hnsw.nodes@.len(),
            _ => true,
        }
    }
}

impl Shard {
    /// Serves one request at time `now` (seconds since the epoch; HGET and GetVector treat keys
    /// whose expiry time has passed as absent).
    pub fn handle(&mut self, cmd: ShardCommand, now: u64) -> (r: ShardReply)
        requires
            old(self).wf(),
            cmd.fits(*old(self)),
        ensures
            final(self).wf(),
            match cmd {
                ShardCommand::Store { key, value, exp, vector } => r is Done && store_effect(
                    *old(self),
                    *final(self),
                    key@,
                    EntryView { value: value@, expiry: exp, vector: vector@ },
                ),
                ShardCommand::Get { key } => r matches ShardReply::Value(v) && get_answer(
                    old(self).contents(),
                    key@,
                    v,
                ) && *final(self) == *old(self),
                ShardCommand::Remove { key } => r is Done && remove_effect(*old(self), *final(self), key@),
                ShardCommand::Expire { key, expire_at } => r matches ShardReply::Expired(b)
                    && expire_effect(old(self).contents(), final(self).contents(), key@, expire_at, b)
                    && (!b ==> *final(self) == *old(self)) && (b ==> only_slot_changed(
                    *old(self),
                    *final(self),
                    old(self).index()[key@] as int,
                )),
                ShardCommand::HGet { key, field } => r matches ShardReply::Field(a) && hget_answer(
                    old(self).contents(),
                    key@,
                    field@,
                    now,
                    a,
                ) && *final(self) == *old(self),
                ShardCommand::HSet { key, field, value, vector } => r matches ShardReply::HashSet(a)
                    && hset_effect(
                    old(self).contents(),
                    final(self).contents(),
                    key@,
                    field@,
                    value@,
                    vector@,
                    a,
                ) && (a is Err ==> *final(self) == *old(self)) && (a is Ok && old(
                    self,
                ).index().contains_key(key@) ==> only_slot_changed(
                    *old(self),
                    *final(self),
                    old(self).index()[key@] as int,
                )) && (!old(self).index().contains_key(key@) ==> store_effect(
                    *old(self),
                    *final(self),
                    key@,
                    EntryView {
                        value: ValueView::Fields(
                            Map::<Seq<char>, Seq<char>>::empty().insert(field@, value@),
                        ),
                        expiry: None,
                        vector: vector@,
                    },
                )),
                ShardCommand::LPush { key, value, vector } => r matches ShardReply::ListPush(a)
                    && lpush_effect(old(self).contents(), final(self).contents(), key@, value@, vector@, a)
                    && (a is Err ==> *final(self) == *old(self)) && (a is Ok && old(
                    self,
                ).index().contains_key(key@) ==> only_slot_changed(
                    *old(self),
                    *final(self),
                    old(self).index()[key@] as int,
                )) && (!old(self).index().contains_key(key@) ==> store_effect(
                    *old(self),
                    *final(self),
                    key@,
                    EntryView { value: ValueView::List(seq![value@]), expiry: None, vector: vector@ },
                )),
                ShardCommand::Search { scores, k } => r matches ShardReply::Found(f) && old(
                    self,
                ).search_answer(scores@, k, f@) && *final(self) == *old(self),
                ShardCommand::GetVector { key } => r matches ShardReply::Vector(v) && vector_answer(
                    old(self).contents(),
                    key@,
                    now,
                    v,
                ) && *final(self) == *old(self),
            },
    {
        match cmd {
            ShardCommand::Store { key, value, exp, vector } => {
                self.insert_data(key, value, exp, vector);
                ShardReply::Done
            },
            ShardCommand::Get { key } => ShardReply::Value(self.get(key.as_str())),
            ShardCommand::Remove { key } => {
                self.remove_data(key.as_str());
                ShardReply::Done
            },
            ShardCommand::Expire { key, expire_at } => ShardReply::Expired(
                self.expire(key.as_str(), expire_at),
            ),
            ShardCommand::HGet { key, field } => ShardReply::Field(
                self.hget(key.as_str(), field.as_str(), now),
            ),
            ShardCommand::HSet { key, field, value, vector } => ShardReply::HashSet(
                self.hset(key, field, value, vector),
            ),
            ShardCommand::LPush { key, value, vector } => ShardReply::ListPush(
                self.lpush(key, value, vector),
            ),
            ShardCommand::Search { scores, k } => ShardReply::Found(self.search(&scores, k)),
            ShardCommand::GetVector { key } => ShardReply::Vector(self.get_vector(key.as_str(), now)),
        }
    }
}

} // verus!
