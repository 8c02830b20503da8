use vstd::prelude::*;
use crate::access::{Access, AccessKind};
use crate::codec::{adjacency_list, batch_records, id_record_bytes, le64};
use crate::dag::Dag;
use crate::local_dag::{LocalOrderGraph, batch_ids, ids_distinct, local_edge};
use crate::small_bank::{transaction_access, tx_access_keys};

verus! {

/// The most transactions a batch holds: node ids are 16-bit.
pub const MAX_BATCH_TXS: usize = 65536;

/// A transaction only reads (opcode 6 and above).
pub open spec fn tx_reads(tx: Seq<u8>) -> bool {
    tx.len() >= 2 && tx[1] >= 6
}

/// Two transactions conflict: they share a user and not both only read.
pub open spec fn tx_conflict(a: Seq<u8>, b: Seq<u8>) -> bool {
    &&& exists|k: u32| tx_access_keys(a).contains(k) && tx_access_keys(b).contains(k)
    &&& !(tx_reads(a) && tx_reads(b))
}

/// The dense node ids `0 .. n`.
pub open spec fn dense_ids(n: nat) -> Seq<u16> {
    Seq::new(n, |i: int| i as u16)
}

/// `dag` is the local DAG of `txs` numbered densely in order.
pub open spec fn is_local_dag_of(dag: Dag, txs: Seq<Vec<u8>>) -> bool {
    &&& dag.wf()
    &&& dag.nodes@ == dense_ids(txs.len())
    &&& forall|u: u16, v: u16| #[trigger] dag.has_edge(u, v) <==> exists|i: int, j: int|
        #![trigger txs[i], txs[j]]
        0 <= i < j < txs.len() && u == i as u16 && v == j as u16 && tx_conflict(txs[i]@, txs[j]@)
}

/// `records` is the sealed batch of `txs` in `round`.
pub open spec fn sealed_batch(records: Seq<Vec<u8>>, txs: Seq<Vec<u8>>, round: u64) -> bool {
    exists|dag: Dag| #[trigger] is_local_dag_of(dag, txs) && records.len() == txs.len() + 1
        && (forall|i: int| 0 <= i < txs.len() ==> (#[trigger] records[i])@ == id_record_bytes(adjacency_list(dag, i as u16)))
        && records[txs.len() as int]@ == le64(round)
}

/// Assembles transactions into batches and seals them with the current round.
pub struct BatchMaker {
    /// Seal once the transactions hold this many bytes.
    pub batch_size: usize,
    pub current_round: u64,
    pub current_batch: Vec<Vec<u8>>,
    pub current_batch_size: usize,
}

impl BatchMaker {
    pub open spec fn wf(&self) -> bool {
        self.current_batch@.len() < MAX_BATCH_TXS
    }

    pub fn new(batch_size: usize) -> (r: BatchMaker)
        ensures
            r.wf(),
            r.batch_size == batch_size,
            r.current_round == 1,
            r.current_batch@.len() == 0,
            r.current_batch_size == 0,
    {
        BatchMaker { batch_size, current_round: 1, current_batch: Vec::new(), current_batch_size: 0 }
    }

    /// Takes the round reported by consensus.
    pub fn update_round(&mut self, round: u64)
        ensures
            final(self).current_round == round,
            final(self).batch_size == old(self).batch_size,
            final(self).current_batch@ == old(self).current_batch@,
            final(self).current_batch_size == old(self).current_batch_size,
    {
        self.current_round = round;
    }

    /// Seals the current batch: numbers its transactions `0 .. n` in order,
    /// builds their local DAG from the conflict oracle, and returns its records
    /// with the round trailer; the batch starts over empty.
    pub fn seal(&mut self) -> (r: Vec<Vec<u8>>)
        requires
            old(self).current_batch@.len() <= MAX_BATCH_TXS,
        ensures
            sealed_batch(r@, old(self).current_batch@, old(self).current_round),
            final(self).current_batch@.len() == 0,
            final(self).current_batch_size == 0,
            final(self).current_round == old(self).current_round,
            final(self).batch_size == old(self).batch_size,
    {
        let mut txs: Vec<Vec<u8>> = Vec::new();
        core::mem::swap(&mut txs, &mut self.current_batch);
        self.current_batch_size = 0;
        let n = txs.len();
        let mut local_order: Vec<(u16, Access)> = Vec::new();
        let mut i: usize = 0;
        while i < n
            invariant
                0 <= i <= n,
                n == txs@.len(),
                n <= MAX_BATCH_TXS,
                local_order@.len() == i,
                forall|k: int| 0 <= k < i ==> (#[trigger] local_order@[k]).0 == k as u16
                    && local_order@[k].1.keys@ == tx_access_keys(txs@[k]@)
                    && (local_order@[k].1.kind == AccessKind::Read <==> tx_reads(txs@[k]@)),
            decreases n - i,
        {
            let a = transaction_access(&txs[i]);
            local_order.push((i as u16, a));
            i += 1;
        }
        let graph = LocalOrderGraph::new(local_order);
        assert(ids_distinct(graph.local_order@)) by {
            assert forall|a: int, b: int| 0 <= a < graph.local_order@.len() && 0 <= b < graph.local_order@.len() && a != b implies graph.local_order@[a].0 != graph.local_order@[b].0 by {
                assert(graph.local_order@[a].0 == a as u16);
                assert(graph.local_order@[b].0 == b as u16);
            }
        }
        let dag = graph.get_dag();
        let r = batch_records(&dag, self.current_round);
        proof {
            let lo = graph.local_order@;
            assert(dag.nodes@ =~= dense_ids(txs@.len())) by {
                assert forall|k: int| 0 <= k < n implies dag.nodes@[k] == dense_ids(txs@.len())[k] by {
                    assert(batch_ids(lo)[k] == lo[k].0);
                }
            }
            assert forall|u: u16, v: u16| #[trigger] dag.has_edge(u, v) <==> exists|i: int, j: int|
                #![trigger txs@[i], txs@[j]]
                0 <= i < j < txs@.len() && u == i as u16 && v == j as u16 && tx_conflict(txs@[i]@, txs@[j]@) by {
                if dag.has_edge(u, v) {
                    assert(local_edge(lo, u, v));
                    let (i, j) = choose|i: int, j: int|
                        #![trigger lo[i], lo[j]]
                        0 <= i < j < lo.len() && lo[i].0 == u && lo[j].0 == v && crate::access::conflicts(lo[i].1, lo[j].1);
                    assert(crate::access::share_key(lo[i].1, lo[j].1));
                    let k = choose|k: u32| lo[i].1.keys@.contains(k) && lo[j].1.keys@.contains(k);
                    assert(tx_access_keys(txs@[i]@).contains(k) && tx_access_keys(txs@[j]@).contains(k));
                    assert(tx_conflict(txs@[i]@, txs@[j]@));
                }
                if exists|i: int, j: int|
                    #![trigger txs@[i], txs@[j]]
                    0 <= i < j < txs@.len() && u == i as u16 && v == j as u16 && tx_conflict(txs@[i]@, txs@[j]@) {
                    let (i, j) = choose|i: int, j: int|
                        #![trigger txs@[i], txs@[j]]
                        0 <= i < j < txs@.len() && u == i as u16 && v == j as u16 && tx_conflict(txs@[i]@, txs@[j]@);
                    let k = choose|k: u32| tx_access_keys(txs@[i]@).contains(k) && tx_access_keys(txs@[j]@).contains(k);
                    assert(lo[i].1.keys@.contains(k) && lo[j].1.keys@.contains(k));
                    assert(crate::access::conflicts(lo[i].1, lo[j].1));
                    assert(local_edge(lo, u, v));
                }
            }
            assert(is_local_dag_of(dag, txs@));
            assert forall|i: int| 0 <= i < txs@.len() implies (#[trigger] r@[i])@ == id_record_bytes(adjacency_list(dag, i as u16)) by {
                assert(dag.nodes@[i] == i as u16);
            }
        }
        r
    }

    /// Adds a transaction; seals and returns the batch once it holds
    /// `batch_size` bytes or the most transactions a batch may hold.
    pub fn add_transaction(&mut self, tx: Vec<u8>) -> (r: Option<Vec<Vec<u8>>>)
        requires
            old(self).wf(),
        ensures
            final(self).wf(),
            final(self).current_round == old(self).current_round,
            final(self).batch_size == old(self).batch_size,
            ({
                let txs = old(self).current_batch@.push(tx);
                let size = old(self).current_batch_size + tx@.len();
                if size >= old(self).batch_size || txs.len() >= MAX_BATCH_TXS {
                    &&& r matches Some(records)
                    &&& sealed_batch(records@, txs, old(self).current_round)
                    &&& final(self).current_batch@.len() == 0
                    &&& final(self).current_batch_size == 0
                } else {
                    &&& r is None
                    &&& final(self).current_batch@ == txs
                    &&& final(self).current_batch_size == size
                }
            }),
    {
        let len = tx.len();
        let full = len >= self.batch_size || self.current_batch_size >= self.batch_size - len;
        if !full {
            self.current_batch_size = self.current_batch_size + len;
        }
        self.current_batch.push(tx);
        if full || self.current_batch.len() >= MAX_BATCH_TXS {
            Some(self.seal())
        } else {
            None
        }
    }

    /// The delay has passed: seals the batch if it holds anything.
    pub fn on_timer(&mut self) -> (r: Option<Vec<Vec<u8>>>)
        requires
            old(self).wf(),
        ensures
            final(self).wf(),
            final(self).current_round == old(self).current_round,
            final(self).batch_size == old(self).batch_size,
            old(self).current_batch@.len() == 0 ==> r is None && final(self).current_batch@ == old(self).current_batch@
                && final(self).current_batch_size == old(self).current_batch_size,
            old(self).current_batch@.len() > 0 ==> (r matches Some(records) && sealed_batch(records@, old(self).current_batch@, old(self).current_round)
                && final(self).current_batch@.len() == 0 && final(self).current_batch_size == 0),
    {
        if self.current_batch.len() == 0 {
            None
        } else {
            Some(self.seal())
        }
    }
}

} // verus!
