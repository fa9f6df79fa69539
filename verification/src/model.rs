use vstd::prelude::*;

verus! {

/// What a cache holds, as mathematics: its entries as pairs of key and value,
/// from the least recently used to the most recently used.
pub type Entries = Seq<(Seq<char>, Seq<char>)>;

/// The number of bytes that the text `s` takes in UTF-8.
pub open spec fn byte_len(s: Seq<char>) -> nat {
    vstd::utf8::encode_utf8(s).len()
}

/// The size of an entry: the bytes of its key plus the bytes of its value.
pub open spec fn entry_size(e: (Seq<char>, Seq<char>)) -> nat {
    byte_len(e.0) + byte_len(e.1)
}

/// The sum of the sizes of the entries of `m`.
pub open spec fn total_size(m: Entries) -> nat
    decreases m.len(),
{
    if m.len() == 0 {
        0
    } else {
        total_size(m.drop_last()) + entry_size(m.last())
    }
}

/// Some entry of `m` has the key `k`.
pub open spec fn has_key(m: Entries, k: Seq<char>) -> bool {
    exists|i: int| 0 <= i < m.len() && (#[trigger] m[i]).0 == k
}

/// The place of an entry of `m` with the key `k`.
pub open spec fn position(m: Entries, k: Seq<char>) -> int {
    choose|i: int| 0 <= i < m.len() && (#[trigger] m[i]).0 == k
}

/// The value that `m` holds for the key `k`, if it holds one.
pub open spec fn lookup(m: Entries, k: Seq<char>) -> Option<Seq<char>> {
    if has_key(m, k) {
        Some(m[position(m, k)].1)
    } else {
        None
    }
}

/// No two entries of `m` have the same key.
pub open spec fn distinct_keys(m: Entries) -> bool {
    forall|i: int, j: int| 0 <= i < j < m.len() ==> (#[trigger] m[i]).0 != (#[trigger] m[j]).0
}

/// `m` after a read of the key `k`: the entry with that key has become the
/// most recently used one, the others keep their order. A read of a key that
/// `m` does not hold changes nothing.
pub open spec fn touched(m: Entries, k: Seq<char>) -> Entries {
    if has_key(m, k) {
        m.remove(position(m, k)).push(m[position(m, k)])
    } else {
        m
    }
}

/// `m` after the value `v` has been written under the key `k`, before anything
/// is evicted: the entry is the most recently used one, it replaces an entry
/// that `m` had for `k`, and the others keep their order.
pub open spec fn written(m: Entries, k: Seq<char>, v: Seq<char>) -> Entries {
    if has_key(m, k) {
        m.remove(position(m, k)).push((k, v))
    } else {
        m.push((k, v))
    }
}

/// `m` is over the budget `max_bytes`; a budget of 0 is no limit.
pub open spec fn over_budget(m: Entries, max_bytes: u64) -> bool {
    max_bytes != 0 && total_size(m) > max_bytes
}

/// `m` after eviction: while it is over the budget, its least recently used
/// entry leaves.
pub open spec fn evicted_to_fit(m: Entries, max_bytes: u64) -> Entries
    decreases m.len(),
{
    if over_budget(m, max_bytes) && m.len() > 0 {
        evicted_to_fit(m.drop_first(), max_bytes)
    } else {
        m
    }
}

/// The place to which the item at place `i` moves when the item at place `p`
/// leaves the sequence.
pub open spec fn shifted(i: int, p: int) -> int {
    if i < p {
        i
    } else {
        i - 1
    }
}

/// The place from which the item at place `i` came when the item at place `p`
/// left the sequence.
pub open spec fn unshifted(i: int, p: int) -> int {
    if i < p {
        i
    } else {
        i + 1
    }
}

/// The size of `m` grows by the size of an entry that is appended.
pub proof fn lemma_total_size_push(m: Entries, e: (Seq<char>, Seq<char>))
    ensures
        total_size(m.push(e)) == total_size(m) + entry_size(e),
{
    assert(m.push(e).drop_last() =~= m);
}

/// The size of `m` shrinks by the size of an entry that is taken out.
pub proof fn lemma_total_size_remove(m: Entries, i: int)
    requires
        0 <= i < m.len(),
    ensures
        total_size(m.remove(i)) == total_size(m) - entry_size(m[i]),
    decreases m.len(),
{
    if i < m.len() - 1 {
        lemma_total_size_remove(m.drop_last(), i);
        assert(m.remove(i).drop_last() =~= m.drop_last().remove(i));
    }
}

/// The size of `m` shrinks by the size of its first entry when that leaves.
pub proof fn lemma_total_size_drop_first(m: Entries)
    requires
        m.len() > 0,
    ensures
        total_size(m.drop_first()) == total_size(m) - entry_size(m[0]),
{
    lemma_total_size_remove(m, 0);
}

/// With distinct keys, the place of a key is the one place where it stands.
pub proof fn lemma_position_unique(m: Entries, i: int)
    requires
        distinct_keys(m),
        0 <= i < m.len(),
    ensures
        has_key(m, m[i].0),
        position(m, m[i].0) == i,
{
}

/// What is left of `m` from place `n` on has distinct keys where `m` has, and
/// each of its keys stands `n` places nearer to the front than in `m`.
pub proof fn lemma_skip_keys(m: Entries, n: int)
    requires
        distinct_keys(m),
        0 <= n <= m.len(),
    ensures
        distinct_keys(m.skip(n)),
        forall|i: int|
            n <= i < m.len() ==> has_key(m.skip(n), (#[trigger] m[i]).0)
                && position(m.skip(n), m[i].0) == i - n,
{
    let t = m.skip(n);
    assert forall|i: int| n <= i < m.len() implies has_key(t, (#[trigger] m[i]).0)
        && position(t, m[i].0) == i - n by {
        lemma_position_unique(t, i - n);
    }
}

/// Where the entry at place `p` of `m` is taken out and an entry `e` with the
/// same key is appended, the keys stay distinct, `e` stands last, and every
/// other key stands where it stood or, behind `p`, one place nearer to the
/// front.
pub proof fn lemma_requeued_keys(m: Entries, p: int, e: (Seq<char>, Seq<char>))
    requires
        distinct_keys(m),
        0 <= p < m.len(),
        e.0 == m[p].0,
    ensures
        distinct_keys(m.remove(p).push(e)),
        has_key(m.remove(p).push(e), e.0),
        position(m.remove(p).push(e), e.0) == m.len() - 1,
        forall|i: int|
            0 <= i < m.len() && i != p ==> has_key(m.remove(p).push(e), (#[trigger] m[i]).0)
                && position(m.remove(p).push(e), m[i].0) == shifted(i, p),
{
    let t = m.remove(p).push(e);
    assert forall|i: int, j: int| 0 <= i < j < t.len() implies (#[trigger] t[i]).0 != (
    #[trigger] t[j]).0 by {
        let a = if i < p { i } else { i + 1 };
        assert(t[i] == m[a]);
        if j < m.len() - 1 {
            let b = if j < p { j } else { j + 1 };
            assert(t[j] == m[b]);
        }
    }
    lemma_position_unique(t, m.len() - 1);
    assert forall|i: int| 0 <= i < m.len() && i != p implies has_key(t, (#[trigger] m[i]).0)
        && position(t, m[i].0) == shifted(i, p) by {
        lemma_position_unique(t, shifted(i, p));
    }
}

/// Where an entry with a key that `m` does not hold is appended, the keys
/// stay distinct, the new entry stands last, and every other key stands where
/// it stood.
pub proof fn lemma_appended_keys(m: Entries, e: (Seq<char>, Seq<char>))
    requires
        distinct_keys(m),
        !has_key(m, e.0),
    ensures
        distinct_keys(m.push(e)),
        has_key(m.push(e), e.0),
        position(m.push(e), e.0) == m.len(),
        forall|i: int|
            0 <= i < m.len() ==> has_key(m.push(e), (#[trigger] m[i]).0)
                && position(m.push(e), m[i].0) == i,
{
    let t = m.push(e);
    assert forall|i: int, j: int| 0 <= i < j < t.len() implies (#[trigger] t[i]).0 != (
    #[trigger] t[j]).0 by {
        assert(t[i] == m[i]);
    }
    lemma_position_unique(t, m.len() as int);
    assert forall|i: int| 0 <= i < m.len() implies has_key(t, (#[trigger] m[i]).0)
        && position(t, m[i].0) == i by {
        lemma_position_unique(t, i);
    }
}

/// After a write the keys are distinct, as they were before it, and the
/// entry that was written is the most recently used one.
pub proof fn lemma_written_keys(m: Entries, k: Seq<char>, v: Seq<char>)
    requires
        distinct_keys(m),
    ensures
        distinct_keys(written(m, k, v)),
        written(m, k, v).len() > 0,
        written(m, k, v).last() == (k, v),
{
    if has_key(m, k) {
        lemma_requeued_keys(m, position(m, k), (k, v));
    } else {
        lemma_appended_keys(m, (k, v));
    }
}

/// Eviction order. What eviction leaves of `m` is `m` without its first
/// entries: each entry that left was the least recently used one at that
/// moment, it left while the cache was over its budget, and no entry left
/// once the cache was within it.
pub proof fn lemma_eviction_drops_oldest(m: Entries, max_bytes: u64)
    ensures
        evicted_to_fit(m, max_bytes).len() <= m.len(),
        evicted_to_fit(m, max_bytes) == m.skip(m.len() - evicted_to_fit(m, max_bytes).len()),
        !over_budget(evicted_to_fit(m, max_bytes), max_bytes),
        forall|j: int|
            0 <= j < m.len() - evicted_to_fit(m, max_bytes).len()
                ==> over_budget(#[trigger] m.skip(j), max_bytes),
    decreases m.len(),
{
    if over_budget(m, max_bytes) && m.len() > 0 {
        let t = m.drop_first();
        let r = evicted_to_fit(t, max_bytes);
        lemma_eviction_drops_oldest(t, max_bytes);
        assert(t.skip(t.len() - r.len()) =~= m.skip(m.len() - r.len()));
        assert forall|j: int| 0 <= j < m.len() - r.len() implies over_budget(
            #[trigger] m.skip(j),
            max_bytes,
        ) by {
            if j == 0 {
                assert(m.skip(0) =~= m);
            } else {
                assert(m.skip(j) =~= t.skip(j - 1));
            }
        }
    } else {
        assert(m.skip(0) =~= m);
    }
}

/// Recency of a read. After a read of a key that `m` holds, the entry of
/// that key is the most recently used one, unchanged, and the other entries
/// stand in the order in which they stood.
pub proof fn lemma_read_recency(m: Entries, k: Seq<char>)
    requires
        distinct_keys(m),
        has_key(m, k),
    ensures
        touched(m, k).len() == m.len(),
        touched(m, k).last() == m[position(m, k)],
        forall|i: int| 0 <= i < m.len() ==> lookup(touched(m, k), (#[trigger] m[i]).0) == Some(m[i].1),
        forall|i: int, j: int|
            0 <= i < j < m.len() && i != position(m, k) && j != position(m, k) ==> position(
                touched(m, k),
                (#[trigger] m[i]).0,
            ) < position(touched(m, k), (#[trigger] m[j]).0),
{
    lemma_requeued_keys(m, position(m, k), m[position(m, k)]);
}

/// Recency of a write. After `v` has been written under `k`, the cache is
/// empty or the entry of `k` is the most recently used one. Every other entry
/// that is still in the cache was there before the write, with the same
/// value, and these stand in the order in which they stood.
pub proof fn lemma_write_recency(m: Entries, k: Seq<char>, v: Seq<char>, max_bytes: u64)
    requires
        distinct_keys(m),
    ensures
        ({
            let after = evicted_to_fit(written(m, k, v), max_bytes);
            &&& after.len() > 0 ==> after.last() == (k, v)
            &&& forall|i: int|
                0 <= i < after.len() - 1 ==> lookup(m, (#[trigger] after[i]).0) == Some(after[i].1)
            &&& forall|i: int, j: int|
                0 <= i < j < after.len() - 1 ==> position(m, (#[trigger] after[i]).0) < position(
                    m,
                    (#[trigger] after[j]).0,
                )
        }),
{
    let w = written(m, k, v);
    let after = evicted_to_fit(w, max_bytes);
    let n = w.len() - after.len();
    lemma_written_keys(m, k, v);
    lemma_eviction_drops_oldest(w, max_bytes);
    let p = if has_key(m, k) { position(m, k) } else { m.len() as int };
    assert forall|i: int| 0 <= i < after.len() - 1 implies has_key(m, (#[trigger] after[i]).0)
        && position(m, after[i].0) == unshifted(i + n, p) && m[unshifted(i + n, p)] == after[i] by {
        assert(after[i] == w[i + n]);
        lemma_position_unique(m, unshifted(i + n, p));
    }
}

/// Round trip. A value that was written under a key is the value that the
/// cache holds for that key afterwards, unless the entry alone is over the
/// budget.
pub proof fn lemma_write_then_read(m: Entries, k: Seq<char>, v: Seq<char>, max_bytes: u64)
    requires
        distinct_keys(m),
        max_bytes == 0 || entry_size((k, v)) <= max_bytes,
    ensures
        lookup(evicted_to_fit(written(m, k, v), max_bytes), k) == Some(v),
{
    let w = written(m, k, v);
    let after = evicted_to_fit(w, max_bytes);
    lemma_written_keys(m, k, v);
    lemma_eviction_drops_oldest(w, max_bytes);
    lemma_skip_keys(w, w.len() - after.len());
    assert(!over_budget(w.skip(w.len() - 1), max_bytes)) by {
        reveal_with_fuel(total_size, 2);
    }
}

/// An entry that alone is over the budget does not stay: the write of it
/// leaves the cache empty, since every older entry is evicted before it and
/// then the entry itself.
pub proof fn lemma_oversized_write_empties(m: Entries, k: Seq<char>, v: Seq<char>, max_bytes: u64)
    requires
        max_bytes != 0,
        entry_size((k, v)) > max_bytes,
    ensures
        evicted_to_fit(written(m, k, v), max_bytes) == Entries::empty(),
{
    let w = written(m, k, v);
    let after = evicted_to_fit(w, max_bytes);
    lemma_eviction_drops_oldest(w, max_bytes);
    if after.len() > 0 {
        assert(after.last() == (k, v));
        assert(total_size(after) >= entry_size(after.last()));
    }
}

/// A write adds at most the size of the entry that is written. So a caller
/// that has found the bytes in the cache and those of `k` and `v` to be no
/// more than `u64::MAX` together may write.
pub proof fn lemma_written_size_bound(m: Entries, k: Seq<char>, v: Seq<char>)
    ensures
        total_size(written(m, k, v)) <= total_size(m) + entry_size((k, v)),
{
    if has_key(m, k) {
        lemma_total_size_remove(m, position(m, k));
        lemma_total_size_push(m.remove(position(m, k)), (k, v));
    } else {
        lemma_total_size_push(m, (k, v));
    }
}

/// A write to a key that the cache holds keeps the number of entries and
/// changes the sum of the sizes by the size of the new entry less the size of
/// the old one; where the cache is within its budget after that, nothing is
/// evicted.
pub proof fn lemma_update_keeps_count(m: Entries, k: Seq<char>, v: Seq<char>, max_bytes: u64)
    requires
        has_key(m, k),
    ensures
        written(m, k, v).len() == m.len(),
        total_size(written(m, k, v)) == total_size(m) - entry_size(m[position(m, k)])
            + entry_size((k, v)),
        !over_budget(written(m, k, v), max_bytes)
            ==> evicted_to_fit(written(m, k, v), max_bytes) == written(m, k, v),
{
    lemma_total_size_remove(m, position(m, k));
    lemma_total_size_push(m.remove(position(m, k)), (k, v));
}

} // verus!
