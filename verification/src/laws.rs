//! Store-wide laws, proved over the replay semantics that the store's
//! contracts are stated in.

use vstd::prelude::*;

use crate::codec::{cmd_fits, enc_cat, enc_record, parses_to};
use crate::records::{lookup, replay_map, replay_ok, CommandModel};

verus! {

/// Round-trip: after a set of `k` to `v`, a lookup of `k` yields `v`.
pub proof fn lemma_round_trip(m: Map<Seq<char>, Seq<char>>, k: Seq<char>, v: Seq<char>)
    ensures
        lookup(m.insert(k, v), k) == Some(v),
{
}

/// Last writer wins: two sequential sets of `k` leave the second value.
pub proof fn lemma_last_writer_wins(
    m: Map<Seq<char>, Seq<char>>,
    k: Seq<char>,
    v1: Seq<char>,
    v2: Seq<char>,
)
    ensures
        lookup(m.insert(k, v1).insert(k, v2), k) == Some(v2),
{
}

/// Tombstone effect: a set of `k` followed by a remove of `k` leaves no
/// value under `k`.
pub proof fn lemma_tombstone(m: Map<Seq<char>, Seq<char>>, k: Seq<char>, v: Seq<char>)
    ensures
        lookup(m.insert(k, v).remove(k), k) == None::<Seq<char>>,
{
}

/// A key that no record ever sets has no value after replay, on a fresh
/// store as on any other.
pub proof fn lemma_never_set_absent(recs: Seq<CommandModel>, k: Seq<char>)
    requires
        forall|i: int|
            0 <= i < recs.len() ==> !(#[trigger] recs[i] matches CommandModel::Put(k2, _)
                && k2 == k),
    ensures
        !replay_map(recs).contains_key(k),
        lookup(replay_map(recs), k) == None::<Seq<char>>,
    decreases recs.len(),
{
    if recs.len() > 0 {
        assert(forall|i: int|
            0 <= i < recs.drop_last().len() ==> #[trigger] recs.drop_last()[i] == recs[i]);
        lemma_never_set_absent(recs.drop_last(), k);
    }
}

/// Persistence across reopen: appending the record of a set to a
/// well-formed log yields a well-formed log whose replay, under a fresh
/// handle, gives `k` the value `v`.
pub proof fn lemma_persistence(
    bytes: Seq<u8>,
    recs: Seq<CommandModel>,
    k: Seq<char>,
    v: Seq<char>,
)
    requires
        parses_to(bytes, recs),
        replay_ok(recs),
        cmd_fits(CommandModel::Put(k, v)),
    ensures
        parses_to(
            bytes + enc_record(CommandModel::Put(k, v)),
            recs.push(CommandModel::Put(k, v)),
        ),
        replay_ok(recs.push(CommandModel::Put(k, v))),
        lookup(replay_map(recs.push(CommandModel::Put(k, v))), k) == Some(v),
{
    let recs2 = recs.push(CommandModel::Put(k, v));
    assert(recs2.drop_last() =~= recs);
    assert(enc_cat(recs2) == enc_cat(recs) + enc_record(CommandModel::Put(k, v)));
    assert(forall|i: int| 0 <= i < recs2.len() ==> cmd_fits(#[trigger] recs2[i]));
}

/// Empty store: a log with no bytes replays to no records, and every
/// lookup misses.
pub proof fn lemma_empty_store(k: Seq<char>)
    ensures
        parses_to(Seq::<u8>::empty(), Seq::<CommandModel>::empty()),
        replay_ok(Seq::<CommandModel>::empty()),
        lookup(replay_map(Seq::<CommandModel>::empty()), k) == None::<Seq<char>>,
{
}

} // verus!
