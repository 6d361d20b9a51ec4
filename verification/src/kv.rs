//! The mathematical model shared by the sorted buffer and the sorted runs: a
//! sequence of key/value records with strictly ascending keys, read as a map
//! from key to value.

use vstd::prelude::*;

use crate::order::{lemma_lex_irrefl, lex_lt};

verus! {

/// Records in strictly ascending key order.
pub open spec fn sorted_records(rs: Seq<(Seq<u8>, Seq<u8>)>) -> bool {
    forall|i: int, j: int| 0 <= i < j < rs.len() ==> #[trigger] lex_lt(rs[i].0, rs[j].0)
}

/// No two records share a key.
pub open spec fn distinct_keys(rs: Seq<(Seq<u8>, Seq<u8>)>) -> bool {
    forall|i: int, j: int| 0 <= i < j < rs.len() ==> (#[trigger] rs[i].0) != (#[trigger] rs[j].0)
}

/// Strictly ascending keys are distinct.
pub proof fn lemma_sorted_distinct(rs: Seq<(Seq<u8>, Seq<u8>)>)
    requires
        sorted_records(rs),
    ensures
        distinct_keys(rs),
{
    assert forall|i: int, j: int| 0 <= i < j < rs.len() implies (#[trigger] rs[i].0) != (
    #[trigger] rs[j].0) by {
        assert(lex_lt(rs[i].0, rs[j].0));
        lemma_lex_irrefl(rs[i].0);
    }
}

/// The map a record sequence denotes; a later record for a key shadows an
/// earlier one.
pub open spec fn map_of(rs: Seq<(Seq<u8>, Seq<u8>)>) -> Map<Seq<u8>, Seq<u8>>
    decreases rs.len(),
{
    if rs.len() == 0 {
        Map::empty()
    } else {
        map_of(rs.drop_last()).insert(rs.last().0, rs.last().1)
    }
}

/// A key is in the map exactly when some record carries it.
pub proof fn lemma_map_of_contains(rs: Seq<(Seq<u8>, Seq<u8>)>, k: Seq<u8>)
    ensures
        map_of(rs).contains_key(k) <==> exists|i: int| 0 <= i < rs.len() && rs[i].0 == k,
    decreases rs.len(),
{
    if rs.len() > 0 {
        let dl = rs.drop_last();
        lemma_map_of_contains(dl, k);
        if map_of(rs).contains_key(k) {
            if k == rs.last().0 {
                assert(rs[rs.len() - 1].0 == k);
            } else {
                let i = choose|i: int| 0 <= i < dl.len() && dl[i].0 == k;
                assert(rs[i].0 == k);
            }
        }
        if exists|i: int| 0 <= i < rs.len() && rs[i].0 == k {
            let i = choose|i: int| 0 <= i < rs.len() && rs[i].0 == k;
            if i < rs.len() - 1 {
                assert(dl[i].0 == k);
            }
        }
    }
}

/// No record carries the key: the map does not either.
pub proof fn lemma_map_of_absent(rs: Seq<(Seq<u8>, Seq<u8>)>, k: Seq<u8>)
    requires
        forall|i: int| 0 <= i < rs.len() ==> (#[trigger] rs[i].0) != k,
    ensures
        !map_of(rs).contains_key(k),
{
    lemma_map_of_contains(rs, k);
}

/// With distinct keys, the record carrying a key gives its value in the map.
pub proof fn lemma_map_of_value(rs: Seq<(Seq<u8>, Seq<u8>)>, i: int)
    requires
        distinct_keys(rs),
        0 <= i < rs.len(),
    ensures
        map_of(rs).contains_key(rs[i].0),
        map_of(rs)[rs[i].0] == rs[i].1,
    decreases rs.len(),
{
    if i < rs.len() - 1 {
        let dl = rs.drop_last();
        assert(distinct_keys(dl)) by {
            assert(forall|a: int, b: int|
                0 <= a < b < dl.len() ==> (#[trigger] dl[a].0) != (#[trigger] dl[b].0));
        }
        lemma_map_of_value(dl, i);
        assert(rs[i].0 != rs.last().0);
    }
}

/// Inserting a record for a fresh key anywhere in the sequence inserts it in
/// the map.
pub proof fn lemma_map_of_insert_at(rs: Seq<(Seq<u8>, Seq<u8>)>, pos: int, k: Seq<u8>, v: Seq<u8>)
    requires
        0 <= pos <= rs.len(),
        forall|i: int| 0 <= i < rs.len() ==> (#[trigger] rs[i].0) != k,
    ensures
        map_of(rs.insert(pos, (k, v))) == map_of(rs).insert(k, v),
    decreases rs.len(),
{
    let rs2 = rs.insert(pos, (k, v));
    if pos == rs.len() {
        assert(rs2.drop_last() =~= rs);
        assert(rs2.last() == (k, v));
    } else {
        let dl = rs.drop_last();
        assert(rs2.last() == rs.last());
        assert(rs2.drop_last() =~= dl.insert(pos, (k, v)));
        assert(forall|i: int| 0 <= i < dl.len() ==> (#[trigger] dl[i].0) != k);
        lemma_map_of_insert_at(dl, pos, k, v);
        assert(rs[rs.len() - 1].0 != k);
        assert(map_of(dl).insert(k, v).insert(rs.last().0, rs.last().1) =~= map_of(dl).insert(
            rs.last().0,
            rs.last().1,
        ).insert(k, v));
    }
}

/// Overwriting the record that carries a key updates that key in the map.
pub proof fn lemma_map_of_update(rs: Seq<(Seq<u8>, Seq<u8>)>, pos: int, v: Seq<u8>)
    requires
        distinct_keys(rs),
        0 <= pos < rs.len(),
    ensures
        map_of(rs.update(pos, (rs[pos].0, v))) == map_of(rs).insert(rs[pos].0, v),
    decreases rs.len(),
{
    let k = rs[pos].0;
    let rs2 = rs.update(pos, (k, v));
    if pos == rs.len() - 1 {
        assert(rs2.drop_last() =~= rs.drop_last());
        assert(rs2.last() == (k, v));
    } else {
        let dl = rs.drop_last();
        assert(distinct_keys(dl)) by {
            assert(forall|a: int, b: int|
                0 <= a < b < dl.len() ==> (#[trigger] dl[a].0) != (#[trigger] dl[b].0));
        }
        assert(rs2.last() == rs.last());
        assert(dl[pos].0 == k);
        assert(rs2.drop_last() =~= dl.update(pos, (k, v)));
        lemma_map_of_update(dl, pos, v);
        assert(rs[rs.len() - 1].0 != k);
        assert(map_of(dl).insert(k, v).insert(rs.last().0, rs.last().1) =~= map_of(dl).insert(
            rs.last().0,
            rs.last().1,
        ).insert(k, v));
    }
}

} // verus!
