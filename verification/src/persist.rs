//! Persistence of a bot's memory: the weight table is flattened to a
//! vector of (key, weights) pairs and encoded with bincode; importing
//! decodes and rebuilds the table, replacing it only when the whole blob
//! decodes — a corrupt blob leaves the previous table untouched.

use vstd::prelude::*;
use std::collections::HashMap;
use crate::bot::{Bot, BotMemory, mem_model, same_config};

verus! {

broadcast use vstd::std_specs::hash::group_hash_axioms;

/// The error enum of the bincode crate, carried opaquely.
#[verifier::external_type_specification]
#[verifier::external_body]
pub struct ExBincodeErrorKind(bincode::ErrorKind);

/// A memory import failed; the table was left as it was.
#[derive(Debug, PartialEq, Eq, Structural, Clone, Copy)]
pub enum PersistenceError {
    Corrupt,
}

/// The (key, weights) pairs a snapshot vector holds, as plain values.
pub open spec fn entries_model(s: Seq<(u64, Vec<i32>)>) -> Seq<(u64, Seq<i32>)> {
    s.map_values(|p: (u64, Vec<i32>)| (p.0, p.1@))
}

/// The table a list of entries denotes: the pairs inserted in order.
pub open spec fn map_of_entries(entries: Seq<(u64, Seq<i32>)>) -> Map<u64, Seq<i32>>
    decreases entries.len(),
{
    if entries.len() == 0 {
        Map::empty()
    } else {
        map_of_entries(entries.drop_last()).insert(entries.last().0, entries.last().1)
    }
}

/// What bincode's default encoding of a snapshot vector is: a function of
/// the entries alone.
pub uninterp spec fn encode_of(entries: Seq<(u64, Seq<i32>)>) -> Seq<u8>;

/// Relies on bincode::serialize: the default fixed-int encoding of a
/// vector of (key, weights) pairs depends on the pairs alone, and
/// serializing plain in-memory data into a fresh vector does not fail.
#[verifier::external_body]
fn encode_entries(entries: &Vec<(u64, Vec<i32>)>) -> (r: Vec<u8>)
    ensures
        r@ == encode_of(entries_model(entries@)),
{
    bincode::serialize(entries).unwrap()
}

/// Relies on bincode::deserialize being the inverse of
/// bincode::serialize: on exactly the bytes that some entry vector
/// encodes to, it returns those entries; on other byte strings it may
/// fail.
#[verifier::external_body]
fn decode_entries(bytes: &Vec<u8>) -> (r: Result<Vec<(u64, Vec<i32>)>, Box<bincode::ErrorKind>>)
    ensures
        r is Ok <== (exists|entries: Seq<(u64, Seq<i32>)>| bytes@ == #[trigger] encode_of(
            entries,
        )),
        r matches Ok(v) ==> (forall|entries: Seq<(u64, Seq<i32>)>|
            bytes@ == #[trigger] encode_of(entries) ==> entries_model(v@) == entries),
{
    bincode::deserialize(bytes)
}

/// Entries drawn from a table denote a table that agrees with it.
proof fn lemma_map_of_submap(entries: Seq<(u64, Seq<i32>)>, model: Map<u64, Seq<i32>>)
    requires
        forall|j: int|
            0 <= j < entries.len() ==> model.contains_key(#[trigger] entries[j].0)
                && model[entries[j].0] == entries[j].1,
    ensures
        forall|k: u64| #[trigger]
            map_of_entries(entries).contains_key(k) ==> model.contains_key(k) && map_of_entries(
                entries,
            )[k] == model[k],
    decreases entries.len(),
{
    if entries.len() > 0 {
        let e = entries.drop_last();
        assert(forall|j: int| 0 <= j < e.len() ==> e[j] == entries[j]);
        lemma_map_of_submap(e, model);
        assert(entries[entries.len() - 1] == entries.last());
        assert(model.contains_key(entries.last().0) && model[entries.last().0]
            == entries.last().1);
        assert forall|k: u64| #[trigger]
            map_of_entries(entries).contains_key(k) implies model.contains_key(k)
            && map_of_entries(entries)[k] == model[k] by {
            if k != entries.last().0 {
                assert(map_of_entries(e).contains_key(k));
            }
        }
    }
}

/// Every key among the entries ends up in the denoted table.
proof fn lemma_map_of_covers(entries: Seq<(u64, Seq<i32>)>)
    ensures
        forall|j: int|
            0 <= j < entries.len() ==> map_of_entries(entries).contains_key(
                #[trigger] entries[j].0,
            ),
    decreases entries.len(),
{
    if entries.len() > 0 {
        lemma_map_of_covers(entries.drop_last());
        assert forall|j: int| 0 <= j < entries.len() implies map_of_entries(
            entries,
        ).contains_key(entries[j].0) by {
            if j < entries.len() - 1 {
                assert(entries.drop_last()[j] == entries[j]);
                assert(map_of_entries(entries.drop_last()).contains_key(entries[j].0));
            }
        }
    }
}

/// A list of entries that agrees with a table pointwise and mentions all
/// of its keys denotes exactly that table.
proof fn lemma_map_of_matches(entries: Seq<(u64, Seq<i32>)>, model: Map<u64, Seq<i32>>)
    requires
        forall|j: int|
            0 <= j < entries.len() ==> model.contains_key(#[trigger] entries[j].0)
                && model[entries[j].0] == entries[j].1,
        forall|k: u64| #[trigger]
            model.contains_key(k) ==> exists|j: int| 0 <= j < entries.len() && entries[j].0 == k,
    ensures
        map_of_entries(entries) == model,
{
    lemma_map_of_submap(entries, model);
    lemma_map_of_covers(entries);
    assert forall|k: u64| #[trigger]
        model.contains_key(k) implies map_of_entries(entries).contains_key(k) by {
        let j = choose|j: int| 0 <= j < entries.len() && entries[j].0 == k;
        assert(map_of_entries(entries).contains_key(entries[j].0));
    }
    assert(map_of_entries(entries) =~= model);
}

/// Lists the table's entries — every (key, weights) pair exactly once,
/// in whatever order the table hands them out.
fn memory_entries(m: &BotMemory) -> (r: Vec<(u64, Vec<i32>)>)
    ensures
        forall|j: int|
            0 <= j < r@.len() ==> m@.contains_key((#[trigger] r@[j]).0) && m@[r@[j].0]@
                == r@[j].1@,
        forall|k: u64| #[trigger]
            m@.contains_key(k) ==> (exists|j: int| 0 <= j < r@.len() && (#[trigger] r@[j]).0 == k),
{
    let mut pairs: Vec<(u64, Vec<i32>)> = Vec::new();
    for x in it: m.iter()
        invariant
            pairs@.len() == it.index(),
            forall|j: int| 0 <= j < pairs@.len() ==> (#[trigger] pairs@[j]).0 == *it.seq()[j].0,
            forall|j: int|
                0 <= j < pairs@.len() ==> m@.contains_key((#[trigger] pairs@[j]).0)
                    && m@[pairs@[j].0]@ == pairs@[j].1@,
            pairs@.len() == m@.dom().len() ==> (forall|k: u64| #[trigger]
                m@.contains_key(k) ==> (exists|j: int|
                    0 <= j < pairs@.len() && (#[trigger] pairs@[j]).0 == k)),
    {
        let (k, v) = x;
        assert(x == it.seq()[it.index()]);
        assert(m@.contains_key(*x.0) && m@[*x.0] == *x.1);
        pairs.push((*k, copy_weights(v)));
        assert(pairs@.len() == m@.dom().len() ==> (forall|k2: u64| #[trigger]
            m@.contains_key(k2) ==> (exists|j: int|
                0 <= j < pairs@.len() && (#[trigger] pairs@[j]).0 == k2))) by {
            if pairs@.len() == m@.dom().len() {
                assert(it.index() + 1 == it.seq().len());
                assert forall|k2: u64| #[trigger] m@.contains_key(k2) implies (exists|j: int|
                    0 <= j < pairs@.len() && (#[trigger] pairs@[j]).0 == k2) by {
                    assert(it.seq().contains((&k2, &m@[k2])));
                    let i = choose|i: int|
                        0 <= i < it.seq().len() && it.seq()[i] == (&k2, &m@[k2]);
                    assert(pairs@[i].0 == *it.seq()[i].0);
                    assert(pairs@[i].0 == k2);
                }
            }
        }
    }
    proof {
        assert(pairs@.len() == m@.dom().len());
    }
    pairs
}

/// A fresh vector with the same weights.
fn copy_weights(v: &Vec<i32>) -> (r: Vec<i32>)
    ensures
        r@ == v@,
{
    let mut r: Vec<i32> = Vec::new();
    let len = v.len();
    for i in 0..len
        invariant
            len == v@.len(),
            r@.len() == i,
            forall|j: int| 0 <= j < i ==> r@[j] == v@[j],
    {
        r.push(v[i]);
    }
    proof {
        assert(r@ =~= v@);
    }
    r
}

impl Bot {
    /// Serializes the memory table verbatim: an enumeration of its
    /// entries, bincode-encoded. Importing the result reproduces the
    /// table exactly (see `load_brain`).
    pub fn export_brain(&self) -> (r: Vec<u8>)
        ensures
            exists|entries: Seq<(u64, Seq<i32>)>|
                r@ == #[trigger] encode_of(entries) && map_of_entries(entries) == mem_model(
                    self.memory@,
                ),
    {
        let pairs = memory_entries(&self.memory);
        proof {
            let entries = entries_model(pairs@);
            let model = mem_model(self.memory@);
            assert forall|j: int|
                0 <= j < entries.len() implies model.contains_key(#[trigger] entries[j].0)
                && model[entries[j].0] == entries[j].1 by {
                assert(self.memory@.contains_key(pairs@[j].0));
            }
            assert forall|k: u64| #[trigger] model.contains_key(k) implies exists|j: int|
                0 <= j < entries.len() && entries[j].0 == k by {
                assert(self.memory@.contains_key(k));
                let j = choose|j: int| 0 <= j < pairs@.len() && pairs@[j].0 == k;
                assert(entries[j].0 == k);
            }
            lemma_map_of_matches(entries, model);
        }
        encode_entries(&pairs)
    }

    /// Replaces the memory table with the one a previously exported blob
    /// holds. All-or-nothing: a blob that does not decode leaves the
    /// previous table untouched, and on any blob that `export_brain`
    /// produced the result is `Ok` and the exported table, entry for
    /// entry.
    pub fn load_brain(&mut self, encoded_brain: Vec<u8>) -> (r: Result<(), PersistenceError>)
        ensures
            same_config(*final(self), *old(self)),
            r is Err ==> final(self).memory@ == old(self).memory@,
            forall|entries: Seq<(u64, Seq<i32>)>|
                encoded_brain@ == #[trigger] encode_of(entries) ==> r is Ok && mem_model(
                    final(self).memory@,
                ) == map_of_entries(entries),
    {
        match decode_entries(&encoded_brain) {
            Err(_) => Err(PersistenceError::Corrupt),
            Ok(pairs) => {
                let mut table: BotMemory = HashMap::new();
                let len = pairs.len();
                proof {
                    assert(entries_model(pairs@.take(0)) =~= entries_model(pairs@).take(0));
                    assert(mem_model(table@) =~= map_of_entries(entries_model(pairs@.take(0))));
                }
                for i in 0..len
                    invariant
                        len == pairs@.len(),
                        mem_model(table@) == map_of_entries(entries_model(pairs@.take(i as int))),
                {
                    let k = pairs[i].0;
                    let v = copy_weights(&pairs[i].1);
                    table.insert(k, v);
                    proof {
                        let cur = entries_model(pairs@.take(i + 1 as int));
                        assert(cur.drop_last() =~= entries_model(pairs@.take(i as int)));
                        assert(cur.last().0 == pairs@[i as int].0);
                        assert(cur.last().1 == pairs@[i as int].1@);
                        assert(mem_model(table@) =~= map_of_entries(cur));
                    }
                }
                proof {
                    assert(pairs@.take(len as int) =~= pairs@);
                }
                self.memory = table;
                Ok(())
            },
        }
    }
}

} // verus!
