//! A log-structured merge tree: a persistent key-value store that batches
//! writes in a sorted in-memory buffer and flushes them as immutable,
//! sparsely indexed sorted runs. Reads consult the buffer first, then the
//! runs from newest to oldest, so the freshest write for a key always wins.
//!
//! Keys and values are byte strings; keys are ordered bytewise. The store's
//! visible contents are modelled as a single map from key to value, and the
//! contracts of `insert`, `get` and `flush_memtable` are stated against it.

use vstd::prelude::*;

pub mod codec;
pub mod kv;
pub mod memtable;
pub mod order;
pub mod sstable;

use crate::codec::clone_bytes;
use crate::memtable::MemTable;
use crate::sstable::SSTable;

verus! {

/// Failures of the store: file-level failures, serialization failures, and a
/// marker for a missing key (absence is normally reported as `None`).
#[derive(Debug)]
pub enum LSMError {
    IO,
    Serialization,
    KeyNotFound,
}

/// Configuration options for the store.
#[derive(Clone, Debug)]
pub struct Config {
    /// Size in bytes the buffer's cumulative counter must reach before a
    /// flush is triggered.
    pub memtable_size_threshold: usize,
    /// Directory meant to hold the run files.
    pub data_dir: String,
}

impl Default for Config {
    /// A one-megabyte flush threshold, runs kept under "data".
    fn default() -> (r: Config)
        ensures
            r.memtable_size_threshold == 1024 * 1024,
            r.data_dir@ == "data"@,
    {
        Config { memtable_size_threshold: 1024 * 1024, data_dir: "data".to_string() }
    }
}

/// The map held by a sequence of runs, oldest to newest: a newer run's entry
/// for a key shadows an older one's.
pub open spec fn runs_map(runs: Seq<SSTable>) -> Map<Seq<u8>, Seq<u8>>
    decreases runs.len(),
{
    if runs.len() == 0 {
        Map::empty()
    } else {
        runs_map(runs.drop_last()).union_prefer_right(runs.last()@)
    }
}

/// A key held by no run is not in the runs' map.
proof fn lemma_runs_map_absent(runs: Seq<SSTable>, k: Seq<u8>)
    requires
        forall|j: int| 0 <= j < runs.len() ==> !(#[trigger] runs[j])@.contains_key(k),
    ensures
        !runs_map(runs).contains_key(k),
    decreases runs.len(),
{
    if runs.len() > 0 {
        let dl = runs.drop_last();
        assert(forall|j: int| 0 <= j < dl.len() ==> dl[j] == runs[j]);
        lemma_runs_map_absent(dl, k);
        assert(runs[runs.len() - 1] == runs.last());
    }
}

/// The newest run holding a key decides its value in the runs' map.
proof fn lemma_runs_map_hit(runs: Seq<SSTable>, j: int, k: Seq<u8>)
    requires
        0 <= j < runs.len(),
        runs[j]@.contains_key(k),
        forall|l: int| j < l < runs.len() ==> !(#[trigger] runs[l])@.contains_key(k),
    ensures
        runs_map(runs).contains_key(k),
        runs_map(runs)[k] == runs[j]@[k],
    decreases runs.len(),
{
    if j == runs.len() - 1 {
        assert(runs[j] == runs.last());
    } else {
        assert(runs[runs.len() - 1] == runs.last());
        assert(!runs.last()@.contains_key(k));
        let dl = runs.drop_last();
        assert(forall|l: int| 0 <= l < dl.len() ==> dl[l] == runs[l]);
        lemma_runs_map_hit(dl, j, k);
    }
}

/// The store coordinator: one live sorted buffer, the sorted runs ordered
/// oldest to newest, a monotonically increasing run id, and the fixed
/// configuration.
pub struct LSMTree {
    memtable: MemTable,
    sstables: Vec<SSTable>,
    sstable_id: u64,
    config: Config,
}

impl View for LSMTree {
    type V = Map<Seq<u8>, Seq<u8>>;

    /// The store's visible contents: the runs' map, shadowed by the live
    /// buffer.
    closed spec fn view(&self) -> Map<Seq<u8>, Seq<u8>> {
        runs_map(self.sstables@).union_prefer_right(self.memtable@)
    }
}

impl LSMTree {
    /// Well-formed: the buffer and every run are.
    pub closed spec fn wf(self) -> bool {
        &&& self.memtable.wf()
        &&& forall|j: int| 0 <= j < self.sstables@.len() ==> (#[trigger] self.sstables@[j]).wf()
    }

    /// The live buffer's cumulative size counter.
    pub closed spec fn buffered_size(self) -> nat {
        self.memtable.size_spec()
    }

    /// The live buffer's current contents.
    pub closed spec fn buffered_map(self) -> Map<Seq<u8>, Seq<u8>> {
        self.memtable@
    }

    /// The configuration the store was opened with.
    pub closed spec fn cfg(self) -> Config {
        self.config
    }

    /// The configured flush threshold.
    pub open spec fn threshold(self) -> nat {
        self.cfg().memtable_size_threshold as nat
    }

    /// The id the next flushed run will take.
    pub closed spec fn run_id(self) -> u64 {
        self.sstable_id
    }

    /// The runs flushed so far, oldest to newest.
    pub closed spec fn runs(self) -> Seq<SSTable> {
        self.sstables@
    }

    /// Creates a store with the default configuration.
    pub fn new() -> (r: Result<LSMTree, LSMError>)
        ensures
            match r {
                Ok(t) => {
                    &&& t.wf()
                    &&& t@ == Map::<Seq<u8>, Seq<u8>>::empty()
                    &&& t.buffered_size() == 0
                    &&& t.run_id() == 0
                    &&& t.runs().len() == 0
                    &&& t.cfg().memtable_size_threshold == 1024 * 1024
                    &&& t.cfg().data_dir@ == "data"@
                },
                Err(_) => false,
            },
    {
        Self::with_config(Config::default())
    }

    /// Creates a store with the given configuration; the storage directory
    /// itself is the caller's concern.
    pub fn with_config(config: Config) -> (r: Result<LSMTree, LSMError>)
        ensures
            match r {
                Ok(t) => {
                    &&& t.wf()
                    &&& t@ == Map::<Seq<u8>, Seq<u8>>::empty()
                    &&& t.buffered_size() == 0
                    &&& t.run_id() == 0
                    &&& t.runs().len() == 0
                    &&& t.cfg() == config
                    &&& t.threshold() == config.memtable_size_threshold
                },
                Err(_) => false,
            },
    {
        let t = LSMTree { memtable: MemTable::new(), sstables: Vec::new(), sstable_id: 0, config };
        proof {
            assert(t.sstables@.len() == 0);
            assert(t@ =~= Map::<Seq<u8>, Seq<u8>>::empty());
        }
        Ok(t)
    }

    /// Writes into the live buffer; if the buffer's cumulative counter has
    /// reached the threshold, synchronously flushes before returning. The
    /// visible contents gain exactly this key/value pair; the flush happens
    /// if and only if the grown counter reaches the threshold, and then the
    /// displaced buffer — this pair included — becomes the newest run.
    pub fn insert(&mut self, key: Vec<u8>, value: Vec<u8>) -> (r: Result<(), LSMError>)
        requires
            old(self).wf(),
            old(self).buffered_size() + key@.len() + value@.len() <= usize::MAX,
            old(self).buffered_size() + key@.len() + value@.len() >= old(self).threshold()
                ==> old(self).run_id() < u64::MAX,
        ensures
            r is Ok,
            final(self).wf(),
            final(self)@ == old(self)@.insert(key@, value@),
            final(self).cfg() == old(self).cfg(),
            old(self).buffered_size() + key@.len() + value@.len() >= old(self).threshold() ==> {
                &&& final(self).buffered_size() == 0
                &&& final(self).buffered_map() == Map::<Seq<u8>, Seq<u8>>::empty()
                &&& final(self).runs().drop_last() == old(self).runs()
                &&& final(self).runs().len() == old(self).runs().len() + 1
                &&& final(self).runs().last()@ == old(self).buffered_map().insert(key@, value@)
                &&& final(self).run_id() == old(self).run_id() + 1
            },
            old(self).buffered_size() + key@.len() + value@.len() < old(self).threshold() ==> {
                &&& final(self).buffered_size() == old(self).buffered_size() + key@.len()
                    + value@.len()
                &&& final(self).buffered_map() == old(self).buffered_map().insert(key@, value@)
                &&& final(self).runs() == old(self).runs()
                &&& final(self).run_id() == old(self).run_id()
            },
    {
        let ghost k = key@;
        let ghost v = value@;
        match self.memtable.put(key, value) {
            Ok(_) => {},
            Err(e) => {
                proof {
                    assert(false);
                }
                return Err(e);
            },
        }
        proof {
            vstd::map_lib::lemma_union_insert_right(
                runs_map(self.sstables@),
                old(self).memtable@,
                k,
                v,
            );
        }
        if self.memtable.size() >= self.config.memtable_size_threshold {
            match self.flush_memtable() {
                Ok(_) => {},
                Err(e) => {
                    proof {
                        assert(false);
                    }
                    return Err(e);
                },
            }
        }
        Ok(())
    }

    /// Checks the live buffer first, then the runs from newest to oldest,
    /// returning the first hit; absence if no layer holds the key.
    #[verifier::loop_isolation(false)]
    pub fn get(&self, key: &Vec<u8>) -> (r: Result<Option<Vec<u8>>, LSMError>)
        requires
            self.wf(),
        ensures
            match r {
                Ok(Some(v)) => self@.contains_key(key@) && v@ == self@[key@],
                Ok(None) => !self@.contains_key(key@),
                Err(_) => false,
            },
    {
        match self.memtable.get(key) {
            Some(v) => {
                return Ok(Some(clone_bytes(v)));
            },
            None => {},
        }
        let mut j: usize = self.sstables.len();
        loop
            invariant
                j <= self.sstables@.len(),
                forall|l: int|
                    j <= l < self.sstables@.len() ==> !(#[trigger] self.sstables@[l])@.contains_key(
                        key@,
                    ),
            decreases j,
        {
            if j == 0 {
                proof {
                    lemma_runs_map_absent(self.sstables@, key@);
                }
                return Ok(None);
            }
            j = j - 1;
            match self.sstables[j].get(key) {
                Ok(Some(v)) => {
                    proof {
                        lemma_runs_map_hit(self.sstables@, j as int, key@);
                    }
                    return Ok(Some(v));
                },
                Ok(None) => {},
                Err(e) => {
                    proof {
                        assert(false);
                    }
                    return Err(e);
                },
            }
        }
    }

    /// Swaps the live buffer for a fresh empty one, builds a run holding
    /// exactly the displaced buffer's entries, appends it as the newest run
    /// — the existing runs untouched — and increments the run id. The
    /// store's visible contents are unchanged.
    pub fn flush_memtable(&mut self) -> (r: Result<(), LSMError>)
        requires
            old(self).wf(),
            old(self).run_id() < u64::MAX,
        ensures
            r is Ok,
            final(self).wf(),
            final(self)@ == old(self)@,
            final(self).buffered_size() == 0,
            final(self).buffered_map() == Map::<Seq<u8>, Seq<u8>>::empty(),
            final(self).runs().drop_last() == old(self).runs(),
            final(self).runs().len() == old(self).runs().len() + 1,
            final(self).runs().last()@ == old(self).buffered_map(),
            final(self).run_id() == old(self).run_id() + 1,
            final(self).cfg() == old(self).cfg(),
    {
        let mut displaced = MemTable::new();
        core::mem::swap(&mut self.memtable, &mut displaced);
        let run = SSTable::from_memtable(&displaced);
        self.sstables.push(run);
        self.sstable_id = self.sstable_id + 1;
        proof {
            assert(self.sstables@.drop_last() =~= old(self).sstables@);
            assert(self.sstables@.last() == run);
            let old_runs = runs_map(old(self).sstables@);
            assert(runs_map(self.sstables@) == old_runs.union_prefer_right(run@));
            assert(old_runs.union_prefer_right(run@).union_prefer_right(self.memtable@)
                =~= old_runs.union_prefer_right(old(self).memtable@));
            assert forall|j: int| 0 <= j < self.sstables@.len() implies (
            #[trigger] self.sstables@[j]).wf() by {
                if j < self.sstables@.len() - 1 {
                    assert(self.sstables@[j] == old(self).sstables@[j]);
                }
            }
        }
        Ok(())
    }

    /// The live buffer's cumulative size counter.
    pub fn buffered_bytes(&self) -> (r: usize)
        ensures
            r == self.buffered_size(),
    {
        self.memtable.size()
    }

    /// The id the next flushed run will take.
    pub fn next_run_id(&self) -> (r: u64)
        ensures
            r == self.run_id(),
    {
        self.sstable_id
    }

    /// The number of runs this store instance has flushed so far.
    pub fn run_count(&self) -> (r: usize)
        ensures
            r == self.runs().len(),
    {
        self.sstables.len()
    }

    /// The run at position `j`, oldest first.
    pub fn run(&self, j: usize) -> (r: &SSTable)
        requires
            self.wf(),
            j < self.runs().len(),
        ensures
            r.wf(),
            *r == self.runs()[j as int],
    {
        &self.sstables[j]
    }
}

/// The store's view after a sequence of inserts applied to `m`, in order.
/// By `insert`'s contract each call applies exactly one such map insertion,
/// and by `flush_memtable`'s contract a flush applies none, so this spells
/// out what any interleaving of inserts and flushes leaves visible.
pub open spec fn view_after_inserts(
    m: Map<Seq<u8>, Seq<u8>>,
    ops: Seq<(Seq<u8>, Seq<u8>)>,
) -> Map<Seq<u8>, Seq<u8>>
    decreases ops.len(),
{
    if ops.len() == 0 {
        m
    } else {
        view_after_inserts(m, ops.drop_last()).insert(ops.last().0, ops.last().1)
    }
}

/// Last write wins: for every sequence of inserts, the last insert for a key
/// determines the value a subsequent read of that key returns, however many
/// flushes came in between.
pub proof fn lemma_last_insert_wins(
    m: Map<Seq<u8>, Seq<u8>>,
    ops: Seq<(Seq<u8>, Seq<u8>)>,
    i: int,
)
    requires
        0 <= i < ops.len(),
        forall|j: int| i < j < ops.len() ==> (#[trigger] ops[j]).0 != ops[i].0,
    ensures
        view_after_inserts(m, ops).contains_key(ops[i].0),
        view_after_inserts(m, ops)[ops[i].0] == ops[i].1,
    decreases ops.len(),
{
    if i < ops.len() - 1 {
        let dl = ops.drop_last();
        assert(forall|j: int| 0 <= j < dl.len() ==> dl[j] == ops[j]);
        lemma_last_insert_wins(m, dl, i);
        assert(ops[ops.len() - 1].0 != ops[i].0);
    }
}

/// Every key ever inserted remains retrievable: after any sequence of
/// inserts, each inserted key is in the view — and a flush, whose contract
/// preserves the view exactly, never removes it.
pub proof fn lemma_inserted_keys_remain(
    m: Map<Seq<u8>, Seq<u8>>,
    ops: Seq<(Seq<u8>, Seq<u8>)>,
    i: int,
)
    requires
        0 <= i < ops.len(),
    ensures
        view_after_inserts(m, ops).contains_key(ops[i].0),
    decreases ops.len(),
{
    if i < ops.len() - 1 {
        let dl = ops.drop_last();
        assert(dl[i] == ops[i]);
        lemma_inserted_keys_remain(m, dl, i);
    }
}

} // verus!
