use vstd::prelude::*;
use std::collections::HashMap;
use crate::small_bank::{be32, read_be32};

verus! {

broadcast use vstd::std_specs::hash::group_hash_axioms;

/// The user a transaction is routed by: its first user field.
pub open spec fn tx_user(tx: Seq<u8>) -> Option<u64> {
    if tx.len() >= 6 {
        Some(be32(tx, 2) as u64)
    } else {
        None
    }
}

/// Routes client transactions to shards and keeps one lock per user.
pub struct Coordinator {
    locks: HashMap<u64, bool>,
    num_shards: u32,
}

impl Coordinator {
    /// The user's lock is held.
    pub closed spec fn is_locked(&self, user: u64) -> bool {
        self.locks@.contains_key(user) && self.locks@[user]
    }

    pub closed spec fn shards(&self) -> u32 {
        self.num_shards
    }

    pub fn new(num_shards: u32) -> (r: Coordinator)
        requires
            num_shards > 0,
        ensures
            r.shards() == num_shards,
            forall|u: u64| !r.is_locked(u),
    {
        Coordinator { locks: HashMap::new(), num_shards }
    }

    /// The user a transaction is routed by, if it is long enough to name one.
    pub fn extract_user_id(&self, transaction: &Vec<u8>) -> (r: Option<u64>)
        ensures
            r == tx_user(transaction@),
    {
        if transaction.len() >= 6 {
            Some(read_be32(transaction, 2) as u64)
        } else {
            None
        }
    }

    /// The shard that serves a user.
    pub fn get_shard_id(&self, user_id: u64) -> (r: u32)
        requires
            self.shards() > 0,
        ensures
            r == (user_id as u32) % self.shards(),
            r < self.shards(),
    {
        (user_id as u32) % self.num_shards
    }

    /// Takes the lock of the transaction's user; fails when it is held already
    /// or the transaction names no user.
    pub fn acquire_locks(&mut self, transaction: &Vec<u8>) -> (r: bool)
        ensures
            final(self).shards() == old(self).shards(),
            r == (tx_user(transaction@) matches Some(u) && !old(self).is_locked(u)),
            r ==> final(self).is_locked(tx_user(transaction@).unwrap()),
            forall|v: u64| tx_user(transaction@) != Some(v) ==> #[trigger] final(self).is_locked(v) == old(self).is_locked(v),
            !r ==> forall|v: u64| #[trigger] final(self).is_locked(v) == old(self).is_locked(v),
    {
        let user = match self.extract_user_id(transaction) {
            Some(u) => u,
            None => return false,
        };
        let held = match self.locks.get(&user) {
            Some(b) => *b,
            None => false,
        };
        if held {
            return false;
        }
        self.locks.insert(user, true);
        true
    }

    /// Releases the lock of the transaction's user.
    pub fn release_locks(&mut self, transaction: &Vec<u8>)
        ensures
            final(self).shards() == old(self).shards(),
            tx_user(transaction@) matches Some(u) ==> !final(self).is_locked(u),
            forall|v: u64| tx_user(transaction@) != Some(v) ==> #[trigger] final(self).is_locked(v) == old(self).is_locked(v),
    {
        match self.extract_user_id(transaction) {
            Some(user) => {
                self.locks.insert(user, false);
            },
            None => {},
        }
    }
}

} // verus!
