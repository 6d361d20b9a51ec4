//! The sorted run: an immutable sequence of key/value records in ascending
//! key order, serialized into a single byte image — a record-count header
//! followed by each record's framed key and framed value — together with an
//! in-memory sparse index sampling every tenth record. Point lookups binary
//! search the index for a bracket and then scan it linearly.

use vstd::prelude::*;

use crate::codec::{
    clone_bytes, decode_bytes, decode_u64, encode_bytes, encode_u64, frame_end, frame_ok,
    frame_payload, framed, lemma_decode_framed, lemma_u64_le_round_trip, u64_le_bytes,
};
use crate::kv::{
    lemma_map_of_absent, lemma_map_of_value, lemma_sorted_distinct, map_of, sorted_records,
};
use crate::memtable::MemTable;
use crate::order::{compare_bytes, lemma_lex_irrefl, lemma_lex_trans, lex_lt};
use crate::LSMError;

verus! {

/// Every tenth record is sampled into the sparse index, counting from the
/// first.
pub const INDEX_INTERVAL: usize = 10;

/// One sparse-index sample: a record's key and the byte offset of that
/// record's key bytes within the run image.
pub struct IndexEntry {
    pub key: Vec<u8>,
    pub position: u64,
}

/// The byte encoding of one record: framed key, then framed value.
pub open spec fn enc_record(r: (Seq<u8>, Seq<u8>)) -> Seq<u8> {
    framed(r.0) + framed(r.1)
}

/// The byte encoding of a record sequence, in order.
pub open spec fn enc_records(rs: Seq<(Seq<u8>, Seq<u8>)>) -> Seq<u8>
    decreases rs.len(),
{
    if rs.len() == 0 {
        Seq::empty()
    } else {
        enc_records(rs.drop_last()) + enc_record(rs.last())
    }
}

/// The full byte image of a run holding `rs`: the record count as a
/// fixed-width integer header, then the records.
pub open spec fn run_image(rs: Seq<(Seq<u8>, Seq<u8>)>) -> Seq<u8> {
    u64_le_bytes(rs.len() as u64) + enc_records(rs)
}

/// The byte offset of record `i`'s key bytes within the image.
pub open spec fn rec_off(rs: Seq<(Seq<u8>, Seq<u8>)>, i: int) -> int {
    8 + enc_records(rs.take(i)).len() as int
}

/// Key and value lengths all fit the frame's length prefix.
pub open spec fn bounded_records(rs: Seq<(Seq<u8>, Seq<u8>)>) -> bool {
    forall|j: int|
        0 <= j < rs.len() ==> (#[trigger] rs[j]).0.len() <= u64::MAX && rs[j].1.len() <= u64::MAX
}

/// The sparse index that belongs to `rs`: one entry per ten records,
/// carrying the sampled record's key and offset.
pub open spec fn index_matches(ix: Seq<IndexEntry>, rs: Seq<(Seq<u8>, Seq<u8>)>) -> bool {
    &&& ix.len() == (rs.len() + 9) / 10
    &&& forall|j: int|
        0 <= j < ix.len() ==> (#[trigger] ix[j]).key@ == rs[10 * j].0 && ix[j].position == rec_off(
            rs,
            10 * j,
        )
}

/// Encoding a longer prefix appends the next record's encoding.
proof fn lemma_enc_records_take_succ(rs: Seq<(Seq<u8>, Seq<u8>)>, i: int)
    requires
        0 <= i < rs.len(),
    ensures
        enc_records(rs.take(i + 1)) == enc_records(rs.take(i)) + enc_record(rs[i]),
{
    assert(rs.take(i + 1).drop_last() =~= rs.take(i));
    assert(rs.take(i + 1).last() == rs[i]);
}

/// Record offsets advance by each record's framed size.
proof fn lemma_rec_off_next(rs: Seq<(Seq<u8>, Seq<u8>)>, i: int)
    requires
        0 <= i < rs.len(),
    ensures
        rec_off(rs, i + 1) == rec_off(rs, i) + 16 + rs[i].0.len() + rs[i].1.len(),
{
    lemma_enc_records_take_succ(rs, i);
}

/// Record offsets grow strictly, by at least sixteen bytes per record.
proof fn lemma_rec_off_mono(rs: Seq<(Seq<u8>, Seq<u8>)>, i: int, j: int)
    requires
        0 <= i <= j <= rs.len(),
    ensures
        rec_off(rs, i) <= rec_off(rs, j),
        i < j ==> rec_off(rs, i) + 16 <= rec_off(rs, j),
    decreases j - i,
{
    if i < j {
        lemma_rec_off_next(rs, j - 1);
        lemma_rec_off_mono(rs, i, j - 1);
    }
}

/// The image ends exactly at the offset past the last record.
proof fn lemma_run_image_len(rs: Seq<(Seq<u8>, Seq<u8>)>)
    ensures
        run_image(rs).len() == rec_off(rs, rs.len() as int),
{
    assert(rs.take(rs.len() as int) =~= rs);
}

/// The records' encoding splits at any point into the encodings of the two
/// halves.
proof fn lemma_enc_records_split(rs: Seq<(Seq<u8>, Seq<u8>)>, i: int)
    requires
        0 <= i <= rs.len(),
    ensures
        enc_records(rs) == enc_records(rs.take(i)) + enc_records(rs.skip(i)),
    decreases rs.len(),
{
    if i == rs.len() {
        assert(rs.take(i) =~= rs);
        assert(rs.skip(i) =~= Seq::<(Seq<u8>, Seq<u8>)>::empty());
        assert(enc_records(rs.take(i)) + enc_records(rs.skip(i)) =~= enc_records(rs));
    } else {
        let dl = rs.drop_last();
        lemma_enc_records_split(dl, i);
        assert(dl.take(i) =~= rs.take(i));
        let sk = rs.skip(i);
        assert(sk.len() > 0);
        assert(sk.drop_last() =~= dl.skip(i));
        assert(sk.last() == rs.last());
        assert(enc_records(sk) == enc_records(dl.skip(i)) + enc_record(rs.last()));
        assert(enc_records(rs) =~= enc_records(rs.take(i)) + enc_records(rs.skip(i)));
    }
}

/// Within the image, record `i`'s framed key starts at its offset and its
/// framed value follows, ending at record `i + 1`'s offset.
proof fn lemma_record_frames(rs: Seq<(Seq<u8>, Seq<u8>)>, i: int)
    requires
        0 <= i < rs.len(),
        bounded_records(rs),
    ensures
        frame_ok(run_image(rs), rec_off(rs, i)),
        frame_payload(run_image(rs), rec_off(rs, i)) == rs[i].0,
        frame_end(run_image(rs), rec_off(rs, i)) == rec_off(rs, i) + 8 + rs[i].0.len(),
        frame_ok(run_image(rs), rec_off(rs, i) + 8 + rs[i].0.len()),
        frame_payload(run_image(rs), rec_off(rs, i) + 8 + rs[i].0.len()) == rs[i].1,
        frame_end(run_image(rs), rec_off(rs, i) + 8 + rs[i].0.len()) == rec_off(rs, i + 1),
{
    let data = run_image(rs);
    let k = rs[i].0;
    let v = rs[i].1;
    let koff = rec_off(rs, i);
    let moff = koff + 8 + k.len();
    lemma_enc_records_split(rs, i);
    lemma_enc_records_split(rs, i + 1);
    lemma_enc_records_take_succ(rs, i);
    lemma_rec_off_next(rs, i);
    lemma_run_image_len(rs);
    lemma_rec_off_mono(rs, i + 1, rs.len() as int);
    // data == header + enc(take i) + framed(k) + framed(v) + enc(skip (i+1))
    assert(enc_records(rs) == enc_records(rs.take(i)) + (framed(k) + framed(v)) + enc_records(
        rs.skip(i + 1),
    )) by {
        assert(enc_records(rs.take(i + 1)) == enc_records(rs.take(i)) + (framed(k) + framed(v)));
        assert(enc_records(rs) =~= enc_records(rs.take(i)) + (framed(k) + framed(v))
            + enc_records(rs.skip(i + 1)));
    }
    assert(data.subrange(koff, koff + 8 + k.len()) =~= framed(k));
    lemma_decode_framed(data, koff, k);
    assert(data.subrange(moff, moff + 8 + v.len()) =~= framed(v));
    lemma_decode_framed(data, moff, v);
}

/// An index slot always samples an existing record.
proof fn lemma_index_slot(n: int, j: int)
    requires
        0 <= n,
        0 <= j < (n + 9) / 10,
    ensures
        10 * j < n,
{
    vstd::arithmetic::div_mod::lemma_fundamental_div_mod(n + 9, 10);
}

/// A vector's view never exceeds `usize::MAX` elements.
proof fn lemma_vec_view_len_bounded<T>(v: Vec<T>)
    ensures
        v@.len() <= usize::MAX,
{
    assert(vstd::std_specs::vec::spec_vec_len(&v) == v@.len());
}

/// The immutable sorted run: the byte image a flush wrote, the sparse index
/// built while writing it, and (as a ghost) the records inside it.
pub struct SSTable {
    data: Vec<u8>,
    index: Vec<IndexEntry>,
    records: Ghost<Seq<(Seq<u8>, Seq<u8>)>>,
}

impl View for SSTable {
    type V = Map<Seq<u8>, Seq<u8>>;

    open spec fn view(&self) -> Map<Seq<u8>, Seq<u8>> {
        map_of(self.recs())
    }
}

impl SSTable {
    /// The records the run was built from, ascending by key.
    pub closed spec fn recs(self) -> Seq<(Seq<u8>, Seq<u8>)> {
        self.records@
    }

    /// Well-formed: the byte image encodes exactly the records, in strictly
    /// ascending key order, and the sparse index samples every tenth record.
    pub closed spec fn wf(self) -> bool {
        &&& sorted_records(self.recs())
        &&& bounded_records(self.recs())
        &&& self.recs().len() <= u64::MAX
        &&& self.data@ == run_image(self.recs())
        &&& index_matches(self.index@, self.recs())
    }

    /// The run's full byte image.
    pub fn image(&self) -> (r: &Vec<u8>)
        requires
            self.wf(),
        ensures
            r@ == run_image(self.recs()),
    {
        &self.data
    }

    /// Builds a run from the buffer's ascending records: writes the record
    /// count header, then each record's framed key and value, sampling every
    /// tenth record into the sparse index.
    pub fn from_memtable(memtable: &MemTable) -> (r: SSTable)
        requires
            memtable.wf(),
        ensures
            r.wf(),
            r@ == memtable@,
            r.recs() == memtable.records(),
    {
        let entries = memtable.iter();
        let ghost rs = memtable.records();
        let n = entries.len();
        let mut data: Vec<u8> = encode_u64(n as u64);
        let mut index: Vec<IndexEntry> = Vec::new();
        let mut i: usize = 0;
        proof {
            assert(rs.take(0) =~= Seq::<(Seq<u8>, Seq<u8>)>::empty());
            assert(data@ =~= u64_le_bytes(n as u64) + enc_records(rs.take(0)));
        }
        while i < n
            invariant
                memtable.wf(),
                rs == memtable.records(),
                entries@.map_values(|p: (Vec<u8>, Vec<u8>)| (p.0@, p.1@)) == rs,
                n == rs.len(),
                n == entries@.len(),
                i <= n,
                data@ == u64_le_bytes(n as u64) + enc_records(rs.take(i as int)),
                index@.len() == (i + 9) / 10,
                forall|j: int|
                    0 <= j < index@.len() ==> (#[trigger] index@[j]).key@ == rs[10 * j].0
                        && index@[j].position == rec_off(rs, 10 * j),
                bounded_records(rs.take(i as int)),
            decreases n - i,
        {
            proof {
                assert(rs[i as int] == (entries@[i as int].0@, entries@[i as int].1@));
                assert(data@.len() == rec_off(rs, i as int));
                lemma_rec_off_mono(rs, 0, i as int);
            }
            let position: u64 = data.len() as u64;
            if i % INDEX_INTERVAL == 0 {
                let sample = IndexEntry { key: clone_bytes(&entries[i].0), position };
                proof {
                    vstd::arithmetic::div_mod::lemma_fundamental_div_mod(i as int, 10);
                    assert(index@.len() == i / 10);
                    assert(10 * (i / 10) == i);
                }
                index.push(sample);
            } else {
                proof {
                    vstd::arithmetic::div_mod::lemma_fundamental_div_mod(i as int, 10);
                    assert((i + 1 + 9) / 10 == (i + 9) / 10);
                }
            }
            let mut kb = encode_bytes(&entries[i].0);
            data.append(&mut kb);
            let mut vb = encode_bytes(&entries[i].1);
            data.append(&mut vb);
            proof {
                lemma_enc_records_take_succ(rs, i as int);
                assert(data@ =~= u64_le_bytes(n as u64) + enc_records(rs.take(i + 1)));
                assert(bounded_records(rs.take(i + 1))) by {
                    assert(forall|j: int|
                        0 <= j < i + 1 ==> (#[trigger] rs.take(i + 1)[j]) == rs.take(
                            i as int,
                        ).push(rs[i as int])[j]);
                    lemma_vec_view_len_bounded(entries@[i as int].0);
                    lemma_vec_view_len_bounded(entries@[i as int].1);
                    assert(rs[i as int].0.len() <= u64::MAX);
                    assert(rs[i as int].1.len() <= u64::MAX);
                }
            }
            i = i + 1;
        }
        proof {
            assert(rs.take(n as int) =~= rs);
        }
        let r = SSTable { data, index, records: Ghost(rs) };
        proof {
            assert(r.wf());
        }
        r
    }

    /// Binary-searches the sparse index for `key`: either the slot that
    /// carries it exactly, or the insertion point among the index keys.
    #[verifier::loop_isolation(false)]
    fn search_index(&self, key: &Vec<u8>) -> (r: (bool, usize))
        requires
            self.wf(),
        ensures
            r.0 ==> r.1 < self.index@.len() && self.index@[r.1 as int].key@ == key@,
            !r.0 ==> r.1 <= self.index@.len() && (forall|j: int|
                0 <= j < r.1 ==> lex_lt(#[trigger] self.index@[j].key@, key@)) && (forall|j: int|
                r.1 <= j < self.index@.len() ==> lex_lt(key@, #[trigger] self.index@[j].key@)),
    {
        let ghost rs = self.recs();
        proof {
            assert forall|a: int, b: int| 0 <= a < b < self.index@.len() implies lex_lt(
                self.index@[a].key@,
                self.index@[b].key@,
            ) by {
                lemma_index_slot(rs.len() as int, b);
                assert(lex_lt(rs[10 * a].0, rs[10 * b].0));
            }
        }
        let mut lo: usize = 0;
        let mut hi: usize = self.index.len();
        while lo < hi
            invariant
                lo <= hi <= self.index@.len(),
                forall|j: int| 0 <= j < lo ==> lex_lt(#[trigger] self.index@[j].key@, key@),
                forall|j: int|
                    hi <= j < self.index@.len() ==> lex_lt(key@, #[trigger] self.index@[j].key@),
            decreases hi - lo,
        {
            let mid = lo + (hi - lo) / 2;
            match compare_bytes(&self.index[mid].key, key) {
                core::cmp::Ordering::Equal => {
                    return (true, mid);
                },
                core::cmp::Ordering::Less => {
                    proof {
                        assert forall|j: int| 0 <= j < mid + 1 implies lex_lt(
                            #[trigger] self.index@[j].key@,
                            key@,
                        ) by {
                            if j < mid {
                                lemma_lex_trans(
                                    self.index@[j].key@,
                                    self.index@[mid as int].key@,
                                    key@,
                                );
                            }
                        }
                    }
                    lo = mid + 1;
                },
                core::cmp::Ordering::Greater => {
                    proof {
                        assert forall|j: int| mid <= j < self.index@.len() implies lex_lt(
                            key@,
                            #[trigger] self.index@[j].key@,
                        ) by {
                            if j > mid {
                                lemma_lex_trans(
                                    key@,
                                    self.index@[mid as int].key@,
                                    self.index@[j].key@,
                                );
                            }
                        }
                    }
                    hi = mid;
                },
            }
        }
        (false, lo)
    }

    /// Point lookup: binary-searches the sparse index for a bracket, then
    /// scans it linearly, deserializing a key at a time. A short or
    /// undecodable read inside the scan is deliberately reported as absence,
    /// never as an error; on a well-formed run that path is unreachable.
    #[verifier::loop_isolation(false)]
    pub fn get(&self, search_key: &Vec<u8>) -> (r: Result<Option<Vec<u8>>, LSMError>)
        requires
            self.wf(),
        ensures
            match r {
                Ok(Some(v)) => self@.contains_key(search_key@) && v@ == self@[search_key@],
                Ok(None) => !self@.contains_key(search_key@),
                Err(_) => false,
            },
    {
        let ghost rs = self.recs();
        proof {
            lemma_sorted_distinct(rs);
            lemma_run_image_len(rs);
            lemma_vec_view_len_bounded(self.data);
            assert(rs.take(0) =~= Seq::<(Seq<u8>, Seq<u8>)>::empty());
            assert(rec_off(rs, 0) == 8);
            lemma_rec_off_mono(rs, 0, rs.len() as int);
        }
        let header = decode_u64(&self.data, 0);
        let pos_after_header: usize;
        match header {
            Some(h) => {
                proof {
                    lemma_u64_le_round_trip(rs.len() as u64);
                    assert(self.data@.subrange(0, 8) =~= u64_le_bytes(rs.len() as u64));
                }
                pos_after_header = h.1;
            },
            None => {
                proof {
                    assert(false);
                }
                return Err(LSMError::Serialization);
            },
        }
        let (exact, ipos) = self.search_index(search_key);
        if exact {
            proof {
                lemma_index_slot(rs.len() as int, ipos as int);
                lemma_record_frames(rs, 10 * ipos as int);
                lemma_rec_off_mono(rs, 10 * ipos as int, rs.len() as int);
            }
            let kpos = self.index[ipos].position as usize;
            match decode_bytes(&self.data, kpos) {
                Some(kp) => {
                    match decode_bytes(&self.data, kp.1) {
                        Some(vp) => {
                            proof {
                                lemma_map_of_value(rs, 10 * ipos as int);
                            }
                            return Ok(Some(vp.0));
                        },
                        None => {
                            proof {
                                assert(false);
                            }
                            return Err(LSMError::Serialization);
                        },
                    }
                },
                None => {
                    proof {
                        assert(false);
                    }
                    return Err(LSMError::Serialization);
                },
            }
        }
        // No exact index hit: scan forward from the bracket's start, between
        // the nearest index entry at or before the key and the next one.
        let mut pos: usize = pos_after_header;
        let mut bound_idx: usize = 1;
        let ghost mut i: int = 0;
        if ipos > 0 {
            proof {
                lemma_index_slot(rs.len() as int, ipos as int - 1);
                lemma_rec_off_mono(rs, 10 * (ipos as int - 1), rs.len() as int);
                assert(self.index@[ipos as int - 1].position == rec_off(
                    rs,
                    10 * (ipos as int - 1),
                ));
            }
            pos = self.index[ipos - 1].position as usize;
            bound_idx = ipos;
            proof {
                i = 10 * (ipos as int - 1);
                let anchor = self.index@[ipos as int - 1].key@;
                assert(anchor == rs[i].0);
                assert(lex_lt(anchor, search_key@));
                assert forall|t: int| 0 <= t < i implies lex_lt(#[trigger] rs[t].0, search_key@) by {
                    lemma_lex_trans(rs[t].0, rs[i].0, search_key@);
                }
            }
        }
        loop
            invariant
                0 <= i <= rs.len(),
                pos == rec_off(rs, i),
                forall|t: int| 0 <= t < i ==> lex_lt(#[trigger] rs[t].0, search_key@),
            decreases rs.len() - i,
        {
            if bound_idx < self.index.len() {
                proof {
                    lemma_index_slot(rs.len() as int, bound_idx as int);
                    lemma_rec_off_mono(rs, 10 * bound_idx as int, rs.len() as int);
                    assert(self.index@[bound_idx as int].position == rec_off(
                        rs,
                        10 * bound_idx as int,
                    ));
                }
                let bpos = self.index[bound_idx].position as usize;
                if pos >= bpos {
                    proof {
                        let bi = 10 * bound_idx as int;
                        if i < bi {
                            lemma_rec_off_mono(rs, i, bi);
                            assert(false);
                        }
                        assert(lex_lt(search_key@, self.index@[bound_idx as int].key@));
                        assert(self.index@[bound_idx as int].key@ == rs[bi].0);
                        assert forall|t: int| 0 <= t < rs.len() implies (#[trigger] rs[t].0)
                            != search_key@ by {
                            lemma_lex_irrefl(search_key@);
                            if t < i {
                            } else if t > bi {
                                lemma_lex_trans(search_key@, rs[bi].0, rs[t].0);
                            }
                        }
                        lemma_map_of_absent(rs, search_key@);
                    }
                    return Ok(None);
                }
            }
            proof {
                lemma_rec_off_mono(rs, i, rs.len() as int);
                if i < rs.len() {
                    lemma_record_frames(rs, i);
                }
            }
            match decode_bytes(&self.data, pos) {
                None => {
                    proof {
                        assert(i == rs.len());
                        assert forall|t: int| 0 <= t < rs.len() implies (#[trigger] rs[t].0)
                            != search_key@ by {
                            lemma_lex_irrefl(search_key@);
                        }
                        lemma_map_of_absent(rs, search_key@);
                    }
                    return Ok(None);
                },
                Some(kp) => {
                    proof {
                        if i == rs.len() {
                            assert(false);
                        }
                    }
                    let found_key = kp.0;
                    let vpos = kp.1;
                    match compare_bytes(&found_key, search_key) {
                        core::cmp::Ordering::Equal => {
                            match decode_bytes(&self.data, vpos) {
                                Some(vp) => {
                                    proof {
                                        lemma_map_of_value(rs, i);
                                    }
                                    return Ok(Some(vp.0));
                                },
                                None => {
                                    proof {
                                        assert(false);
                                    }
                                    return Ok(None);
                                },
                            }
                        },
                        core::cmp::Ordering::Greater => {
                            proof {
                                assert forall|t: int| 0 <= t < rs.len() implies (#[trigger] rs[t].0)
                                    != search_key@ by {
                                    lemma_lex_irrefl(search_key@);
                                    if t > i {
                                        lemma_lex_trans(search_key@, rs[i].0, rs[t].0);
                                    }
                                }
                                lemma_map_of_absent(rs, search_key@);
                            }
                            return Ok(None);
                        },
                        core::cmp::Ordering::Less => {
                            match decode_bytes(&self.data, vpos) {
                                Some(vp) => {
                                    pos = vp.1;
                                    proof {
                                        i = i + 1;
                                    }
                                },
                                None => {
                                    proof {
                                        assert(false);
                                    }
                                    return Ok(None);
                                },
                            }
                        },
                    }
                },
            }
        }
    }
}

/// Bracketing at the low end: a key below a run's smallest key is held by no
/// record at all, so the scan that starts right after the header — the
/// bracket chosen when the key precedes every indexed key — can stop at or
/// before the first index boundary without ever finding a false positive.
pub proof fn lemma_key_below_range_absent(run: SSTable, k: Seq<u8>)
    requires
        run.wf(),
        run.recs().len() > 0,
        lex_lt(k, run.recs()[0].0),
    ensures
        !run@.contains_key(k),
{
    let rs = run.recs();
    assert forall|t: int| 0 <= t < rs.len() implies (#[trigger] rs[t].0) != k by {
        lemma_lex_irrefl(k);
        if t > 0 {
            lemma_lex_trans(k, rs[0].0, rs[t].0);
        }
    }
    lemma_map_of_absent(rs, k);
}

} // verus!
