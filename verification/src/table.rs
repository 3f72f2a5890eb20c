//! A namespace as the store holds it, for stating what the operations of an
//! accessor add up to: a finite map from keys to values, read by key, written
//! and deleted by key, deleted in batches, and iterated in ascending order of
//! its keys.

use vstd::prelude::*;
use crate::lex::lex_lt;

verus! {

/// The keys come in strictly ascending order.
pub open spec fn ascending(keys: Seq<Seq<u8>>) -> bool {
    forall|i: int, j: int| 0 <= i < j < keys.len() ==> lex_lt(#[trigger] keys[i], #[trigger] keys[j])
}

/// `keys` and `values` are what an iteration over `table` from its start
/// yields when nothing fails: every entry once, in ascending order of the
/// keys.
pub open spec fn scans(table: Map<Seq<u8>, Seq<u8>>, keys: Seq<Seq<u8>>, values: Seq<Seq<u8>>) -> bool {
    &&& keys.len() == values.len()
    &&& ascending(keys)
    &&& forall|i: int|
        0 <= i < keys.len() ==> table.contains_key(#[trigger] keys[i]) && table[keys[i]] == values[i]
    &&& forall|key: Seq<u8>| #[trigger] table.contains_key(key) ==> keys.contains(key)
}

/// What the store answers when it is asked for `key`.
pub open spec fn fetch(table: Map<Seq<u8>, Seq<u8>>, key: Seq<u8>) -> Option<Seq<u8>> {
    if table.contains_key(key) {
        Some(table[key])
    } else {
        None
    }
}

/// The namespace after `value` was put under `key`.
pub open spec fn put(table: Map<Seq<u8>, Seq<u8>>, key: Seq<u8>, value: Seq<u8>) -> Map<
    Seq<u8>,
    Seq<u8>,
> {
    table.insert(key, value)
}

/// The namespace after `key` was deleted.
pub open spec fn delete(table: Map<Seq<u8>, Seq<u8>>, key: Seq<u8>) -> Map<Seq<u8>, Seq<u8>> {
    table.remove(key)
}

/// The namespace after one batch deleted `keys`.
pub open spec fn delete_batch(table: Map<Seq<u8>, Seq<u8>>, keys: Seq<Seq<u8>>) -> Map<
    Seq<u8>,
    Seq<u8>,
> {
    table.remove_keys(keys.to_set())
}

/// Keys in strictly ascending order are all different.
pub proof fn lemma_ascending_distinct(keys: Seq<Seq<u8>>)
    requires
        ascending(keys),
    ensures
        keys.no_duplicates(),
{
    assert forall|i: int, j: int| 0 <= i < keys.len() && 0 <= j < keys.len() && i != j implies keys[i]
        != keys[j] by {
        if i < j {
            assert(lex_lt(keys[i], keys[j]));
        } else {
            assert(lex_lt(keys[j], keys[i]));
        }
    }
}

/// A scan is as long as the namespace has keys.
pub proof fn lemma_scan_counts(table: Map<Seq<u8>, Seq<u8>>, keys: Seq<Seq<u8>>, values: Seq<Seq<u8>>)
    requires
        scans(table, keys, values),
    ensures
        table.dom().finite(),
        table.dom().len() == keys.len(),
{
    lemma_ascending_distinct(keys);
    keys.unique_seq_to_set();
    assert(keys.to_set() =~= table.dom()) by {
        assert forall|key: Seq<u8>| keys.to_set().contains(key) <==> table.dom().contains(key) by {
            if keys.contains(key) {
                let i = choose|i: int| 0 <= i < keys.len() && keys[i] == key;
                assert(table.contains_key(keys[i]));
            }
        }
    }
    vstd::seq_lib::seq_to_set_is_finite(keys);
}

/// After a batch deleted the first `n` keys of a scan, the rest of the scan
/// is a scan of what is left.
pub proof fn lemma_scan_after_batch(
    table: Map<Seq<u8>, Seq<u8>>,
    keys: Seq<Seq<u8>>,
    values: Seq<Seq<u8>>,
    n: int,
)
    requires
        scans(table, keys, values),
        0 <= n <= keys.len(),
    ensures
        scans(delete_batch(table, keys.take(n)), keys.skip(n), values.skip(n)),
        forall|i: int, j: int|
            0 <= i < n && n <= j < keys.len() ==> lex_lt(#[trigger] keys[i], #[trigger] keys[j]),
{
    let left = delete_batch(table, keys.take(n));
    let gone = keys.take(n).to_set();
    lemma_ascending_distinct(keys);
    assert forall|i: int| 0 <= i < keys.skip(n).len() implies left.contains_key(
        #[trigger] keys.skip(n)[i],
    ) && left[keys.skip(n)[i]] == values.skip(n)[i] by {
        let key = keys[i + n];
        assert(table.contains_key(key));
        if gone.contains(key) {
            let j = choose|j: int| 0 <= j < keys.take(n).len() && keys.take(n)[j] == key;
            assert(keys[j] == keys[i + n]);
        }
    }
    assert forall|key: Seq<u8>| #[trigger] left.contains_key(key) implies keys.skip(n).contains(
        key,
    ) by {
        assert(table.contains_key(key));
        let i = choose|i: int| 0 <= i < keys.len() && keys[i] == key;
        if i < n {
            assert(keys.take(n)[i] == key);
            assert(gone.contains(key));
        }
        assert(keys.skip(n)[i - n] == key);
    }
    assert(ascending(keys.skip(n))) by {
        assert forall|i: int, j: int| 0 <= i < j < keys.skip(n).len() implies lex_lt(
            #[trigger] keys.skip(n)[i],
            #[trigger] keys.skip(n)[j],
        ) by {
            assert(lex_lt(keys[i + n], keys[j + n]));
        }
    }
}

} // verus!
