//! The in-memory sorted buffer: an ordered, mutable key-to-value mapping
//! that accumulates writes until the store flushes it to a sorted run. It
//! carries a cumulative size counter: the sum, over every `put` ever made,
//! of that call's key length plus value length — an overcount once a key has
//! been overwritten, used only as a flush trigger.

use vstd::prelude::*;

use crate::kv::{
    lemma_map_of_absent, lemma_map_of_insert_at, lemma_map_of_update, lemma_map_of_value,
    lemma_sorted_distinct, map_of, sorted_records,
};
use crate::order::{compare_bytes, lemma_lex_irrefl, lemma_lex_trans, lex_lt};
use crate::LSMError;

verus! {

/// The sorted buffer. Records are kept ascending by key, keys unique.
pub struct MemTable {
    entries: Vec<(Vec<u8>, Vec<u8>)>,
    size_bytes: usize,
}

impl View for MemTable {
    type V = Map<Seq<u8>, Seq<u8>>;

    open spec fn view(&self) -> Map<Seq<u8>, Seq<u8>> {
        map_of(self.records())
    }
}

impl MemTable {
    /// The buffer's records in ascending key order.
    pub closed spec fn records(self) -> Seq<(Seq<u8>, Seq<u8>)> {
        self.entries@.map_values(|p: (Vec<u8>, Vec<u8>)| (p.0@, p.1@))
    }

    /// The cumulative size counter.
    pub closed spec fn size_spec(self) -> nat {
        self.size_bytes as nat
    }

    /// Well-formed: records strictly ascending by key.
    pub open spec fn wf(self) -> bool {
        sorted_records(self.records())
    }

    /// Creates an empty buffer with a zero size counter.
    pub fn new() -> (r: MemTable)
        ensures
            r.wf(),
            r@ == Map::<Seq<u8>, Seq<u8>>::empty(),
            r.records() == Seq::<(Seq<u8>, Seq<u8>)>::empty(),
            r.size_spec() == 0,
    {
        let r = MemTable { entries: Vec::new(), size_bytes: 0 };
        proof {
            assert(r.records() =~= Seq::<(Seq<u8>, Seq<u8>)>::empty());
        }
        r
    }

    /// Finds where `key` lives or would live: either the position that
    /// carries it, or the insertion point among the sorted records.
    fn find_slot(&self, key: &Vec<u8>) -> (r: (bool, usize))
        requires
            self.wf(),
        ensures
            r.1 <= self.records().len(),
            forall|j: int| 0 <= j < r.1 ==> lex_lt(#[trigger] self.records()[j].0, key@),
            r.0 ==> r.1 < self.records().len() && self.records()[r.1 as int].0 == key@,
            !r.0 ==> forall|j: int|
                r.1 <= j < self.records().len() ==> lex_lt(key@, #[trigger] self.records()[j].0),
    {
        let ghost rs = self.records();
        let mut i: usize = 0;
        loop
            invariant
                self.wf(),
                rs == self.records(),
                i <= self.entries@.len(),
                rs.len() == self.entries@.len(),
                forall|j: int| 0 <= j < i ==> lex_lt(#[trigger] rs[j].0, key@),
            decreases self.entries@.len() - i,
        {
            if i == self.entries.len() {
                return (false, i);
            }
            proof {
                assert(rs[i as int].0 == self.entries@[i as int].0@);
            }
            match compare_bytes(&self.entries[i].0, key) {
                core::cmp::Ordering::Less => {
                    i = i + 1;
                },
                core::cmp::Ordering::Equal => {
                    return (true, i);
                },
                core::cmp::Ordering::Greater => {
                    proof {
                        assert forall|j: int| i <= j < rs.len() implies lex_lt(
                            key@,
                            #[trigger] rs[j].0,
                        ) by {
                            if j > i {
                                assert(lex_lt(rs[i as int].0, rs[j].0));
                                lemma_lex_trans(key@, rs[i as int].0, rs[j].0);
                            }
                        }
                    }
                    return (false, i);
                },
            }
        }
    }

    /// Inserts or overwrites; returns the serialized byte size of this call's
    /// key plus value, which is also added to the cumulative size counter.
    /// The counter never decreases, overwrites of the same key included: it
    /// grows by this call's full size without subtracting a superseded
    /// entry's.
    pub fn put(&mut self, key: Vec<u8>, value: Vec<u8>) -> (r: Result<usize, LSMError>)
        requires
            old(self).wf(),
            old(self).size_spec() + key@.len() + value@.len() <= usize::MAX,
        ensures
            final(self).wf(),
            final(self)@ == old(self)@.insert(key@, value@),
            final(self).size_spec() == old(self).size_spec() + key@.len() + value@.len(),
            final(self).size_spec() >= old(self).size_spec(),
            r matches Ok(n) && n == key@.len() + value@.len(),
    {
        let ghost rs = self.records();
        let size = key.len() + value.len();
        let (found, pos) = self.find_slot(&key);
        if found {
            proof {
                lemma_sorted_distinct(rs);
                lemma_map_of_update(rs, pos as int, value@);
                assert(rs.update(pos as int, (rs[pos as int].0, value@)) =~= rs.update(
                    pos as int,
                    (key@, value@),
                ));
            }
            self.entries[pos] = (key, value);
            proof {
                assert(self.records() =~= rs.update(pos as int, (key@, value@)));
            }
        } else {
            proof {
                assert forall|i: int| 0 <= i < rs.len() implies (#[trigger] rs[i].0) != key@ by {
                    if i < pos {
                        lemma_lex_irrefl(rs[i].0);
                    } else {
                        lemma_lex_irrefl(key@);
                    }
                }
                lemma_map_of_insert_at(rs, pos as int, key@, value@);
            }
            self.entries.insert(pos, (key, value));
            proof {
                assert(self.records() =~= rs.insert(pos as int, (key@, value@)));
            }
        }
        proof {
            let rs2 = self.records();
            assert forall|i: int, j: int| 0 <= i < j < rs2.len() implies lex_lt(
                #[trigger] rs2[i].0,
                #[trigger] rs2[j].0,
            ) by {
                if found {
                } else {
                    if i < pos && j == pos {
                    } else if i == pos && j > pos {
                    } else if i < pos && j > pos {
                        lemma_lex_trans(rs2[i].0, key@, rs2[j].0);
                    }
                }
            }
        }
        self.size_bytes = self.size_bytes + size;
        Ok(size)
    }

    /// Returns the current value for `key`, or absence; no side effects.
    pub fn get(&self, key: &Vec<u8>) -> (r: Option<&Vec<u8>>)
        requires
            self.wf(),
        ensures
            match r {
                Some(v) => self@.contains_key(key@) && v@ == self@[key@],
                None => !self@.contains_key(key@),
            },
    {
        let (found, pos) = self.find_slot(key);
        if found {
            proof {
                lemma_sorted_distinct(self.records());
                lemma_map_of_value(self.records(), pos as int);
            }
            Some(&self.entries[pos].1)
        } else {
            proof {
                assert forall|i: int| 0 <= i < self.records().len() implies (
                #[trigger] self.records()[i].0) != key@ by {
                    if i < pos {
                        lemma_lex_irrefl(self.records()[i].0);
                    } else {
                        lemma_lex_irrefl(key@);
                    }
                }
                lemma_map_of_absent(self.records(), key@);
            }
            None
        }
    }

    /// The cumulative size counter: the sum of the serialized sizes handed
    /// back by every `put` so far, overwrites included.
    pub fn size(&self) -> (r: usize)
        ensures
            r == self.size_spec(),
    {
        self.size_bytes
    }

    /// Whether the buffer currently holds no record.
    pub fn is_empty(&self) -> (r: bool)
        ensures
            r <==> self.records().len() == 0,
    {
        self.entries.is_empty()
    }

    /// The buffer's records, ascending by key: a snapshot of the current
    /// contents, not a historical log.
    pub fn iter(&self) -> (r: &Vec<(Vec<u8>, Vec<u8>)>)
        ensures
            r@.map_values(|p: (Vec<u8>, Vec<u8>)| (p.0@, p.1@)) == self.records(),
    {
        &self.entries
    }

    /// The number of records currently held.
    pub fn len(&self) -> (r: usize)
        ensures
            r == self.records().len(),
    {
        self.entries.len()
    }
}

} // verus!
