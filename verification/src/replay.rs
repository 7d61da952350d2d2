//! What a sequence of writes leaves behind: the map in which every key has
//! the value last written under it.

use vstd::prelude::*;

verus! {

/// A write as the contracts see it: a key and the value put under it.
pub type Write = (Seq<u8>, Seq<u8>);

/// The map that `start` becomes when the writes are applied in order.
pub open spec fn apply_writes(start: Map<Seq<u8>, Seq<u8>>, writes: Seq<Write>) -> Map<
    Seq<u8>,
    Seq<u8>,
>
    decreases writes.len(),
{
    if writes.len() == 0 {
        start
    } else {
        apply_writes(start, writes.drop_last()).insert(writes.last().0, writes.last().1)
    }
}

/// The map that a log's records build from nothing.
pub open spec fn replay(records: Seq<Write>) -> Map<Seq<u8>, Seq<u8>> {
    apply_writes(Map::empty(), records)
}

/// One more write at the end is one more insertion.
pub proof fn lemma_apply_push(start: Map<Seq<u8>, Seq<u8>>, writes: Seq<Write>, w: Write)
    ensures
        apply_writes(start, writes.push(w)) == apply_writes(start, writes).insert(w.0, w.1),
{
    assert(writes.push(w).drop_last() =~= writes);
}

/// A write that no later write to the same key follows is what the map
/// holds for that key.
pub proof fn lemma_last_write_wins(start: Map<Seq<u8>, Seq<u8>>, writes: Seq<Write>, i: int)
    requires
        0 <= i < writes.len(),
        forall|j: int| i < j < writes.len() ==> writes[j].0 != writes[i].0,
    ensures
        apply_writes(start, writes).contains_key(writes[i].0),
        apply_writes(start, writes)[writes[i].0] == writes[i].1,
    decreases writes.len(),
{
    if i < writes.len() - 1 {
        let shorter = writes.drop_last();
        assert(shorter[i] == writes[i]);
        assert forall|j: int| i < j < shorter.len() implies shorter[j].0 != shorter[i].0 by {
            assert(shorter[j] == writes[j]);
        }
        lemma_last_write_wins(start, shorter, i);
        assert(writes.last().0 != writes[i].0);
    }
}

/// A key that no write names is in the map after the writes exactly if it
/// was there before, with the value it had.
pub proof fn lemma_untouched_key(start: Map<Seq<u8>, Seq<u8>>, writes: Seq<Write>, key: Seq<u8>)
    requires
        forall|j: int| 0 <= j < writes.len() ==> writes[j].0 != key,
    ensures
        apply_writes(start, writes).contains_key(key) == start.contains_key(key),
        start.contains_key(key) ==> apply_writes(start, writes)[key] == start[key],
    decreases writes.len(),
{
    if writes.len() > 0 {
        let shorter = writes.drop_last();
        assert forall|j: int| 0 <= j < shorter.len() implies shorter[j].0 != key by {
            assert(shorter[j] == writes[j]);
        }
        lemma_untouched_key(start, shorter, key);
        assert(writes.last() == writes[writes.len() - 1]);
    }
}

/// A second write to a key makes the first one to it vanish: the map is
/// what the second write alone would have left.
pub proof fn lemma_overwrite(
    start: Map<Seq<u8>, Seq<u8>>,
    key: Seq<u8>,
    first: Seq<u8>,
    second: Seq<u8>,
)
    ensures
        start.insert(key, first).insert(key, second) == start.insert(key, second),
        start.insert(key, first).insert(key, second)[key] == second,
{
    assert(start.insert(key, first).insert(key, second) =~= start.insert(key, second));
}

} // verus!
