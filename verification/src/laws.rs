//! What the operations of an accessor add up to, stated of a namespace as
//! the store holds it and proved from the contracts of the operations.

use vstd::prelude::*;
use vstd::utf8::{encode_utf8, encode_utf8_valid_utf8, valid_utf8};
use crate::column_family::{
    acknowledged,
    counted,
    decodes,
    excess_over,
    filter_gives,
    in_time_range,
    key_is_fixed,
    keyed,
    lookup_gives,
    evicted,
    read_gives,
    round_trips,
    selection,
    write_gives,
    Keyable,
};
use crate::error::{Fault, StoreError};
use crate::lex::{lemma_lex_concat, lex_lt};
use crate::table::{
    delete,
    delete_batch,
    fetch,
    lemma_ascending_distinct,
    lemma_scan_after_batch,
    lemma_scan_counts,
    put,
    scans,
};
use crate::utils::{
    index_bytes,
    index_chars,
    inverted,
    lemma_decimal_len,
    lemma_index_chars_bytes,
    lemma_index_reverses_time,
    INDEX_WIDTH,
    MAX_TIMESTAMP,
};

verus! {

/// Every value of the namespace that stands for a record lies under the key
/// of that record.
pub open spec fn consistent<T: Keyable>(table: Map<Seq<u8>, Seq<u8>>) -> bool {
    forall|key: Seq<u8>, record: T, name: Seq<char>|
        table.contains_key(key) && #[trigger] decodes(table[key], Some(record)) && #[trigger] keyed(
            record,
            name,
        ) ==> key == encode_utf8(name)
}

/// The positions of the instants from `start` to `end`, both included,
/// ascending.
pub open spec fn within(instants: Seq<int>, start: int, end: int) -> Seq<int>
    decreases instants.len(),
{
    if instants.len() == 0 {
        Seq::empty()
    } else {
        let rest = within(instants.drop_last(), start, end);
        if start <= instants.last() <= end {
            rest.push(instants.len() - 1)
        } else {
            rest
        }
    }
}

/// A namespace stays consistent: the empty one is, and so is what a `set`,
/// a `del` or a batch of deletions leaves of a consistent one.
pub proof fn consistency_is_kept<T: Keyable>(
    table: Map<Seq<u8>, Seq<u8>>,
    item: T,
    write: (Seq<u8>, Seq<u8>),
    key: Seq<u8>,
    batch: Seq<Seq<u8>>,
)
    requires
        key_is_fixed::<T>(),
        round_trips::<T>(),
        consistent::<T>(table),
        write_gives(item, Ok(write)),
    ensures
        consistent::<T>(Map::empty()),
        consistent::<T>(put(table, write.0, write.1)),
        consistent::<T>(delete(table, key)),
        consistent::<T>(delete_batch(table, batch)),
{
    let after = put(table, write.0, write.1);
    assert forall|at: Seq<u8>, record: T, name: Seq<char>|
        after.contains_key(at) && #[trigger] decodes(after[at], Some(record)) && #[trigger] keyed(
            record,
            name,
        ) implies at == encode_utf8(name) by {
        if at == write.0 {
            assert(record == item);
        } else {
            assert(table.contains_key(at) && decodes(table[at], Some(record)));
        }
    }
    let less = delete(table, key);
    assert forall|at: Seq<u8>, record: T, name: Seq<char>|
        less.contains_key(at) && #[trigger] decodes(less[at], Some(record)) && #[trigger] keyed(
            record,
            name,
        ) implies at == encode_utf8(name) by {
        assert(table.contains_key(at) && decodes(table[at], Some(record)));
    }
    let left = delete_batch(table, batch);
    assert forall|at: Seq<u8>, record: T, name: Seq<char>|
        left.contains_key(at) && #[trigger] decodes(left[at], Some(record)) && #[trigger] keyed(
            record,
            name,
        ) implies at == encode_utf8(name) by {
        assert(table.contains_key(at) && decodes(table[at], Some(record)));
    }
}

/// Setting a record twice leaves what setting it once leaves: the same keys,
/// the same answers under every other key, and under its own key a value
/// that every lookup gives back as the record.
pub proof fn upsert_is_idempotent<T: Keyable>(
    table: Map<Seq<u8>, Seq<u8>>,
    item: T,
    first: (Seq<u8>, Seq<u8>),
    second: (Seq<u8>, Seq<u8>),
)
    requires
        key_is_fixed::<T>(),
        round_trips::<T>(),
        write_gives(item, Ok(first)),
        write_gives(item, Ok(second)),
    ensures
        first.0 == second.0,
        put(put(table, first.0, first.1), second.0, second.1).dom() == put(
            table,
            first.0,
            first.1,
        ).dom(),
        forall|key: Seq<u8>|
            key != first.0 ==> #[trigger] fetch(
                put(put(table, first.0, first.1), second.0, second.1),
                key,
            ) == fetch(put(table, first.0, first.1), key),
        forall|found: Result<Option<T>, StoreError>|
            #[trigger] lookup_gives(Ok(fetch(put(table, first.0, first.1), first.0)), found) ==> found
                == Ok::<Option<T>, StoreError>(Some(item)),
        forall|found: Result<Option<T>, StoreError>|
            #[trigger] lookup_gives(
                Ok(fetch(put(put(table, first.0, first.1), second.0, second.1), first.0)),
                found,
            ) ==> found == Ok::<Option<T>, StoreError>(Some(item)),
{
    let once = put(table, first.0, first.1);
    let twice = put(once, second.0, second.1);
    assert(twice.dom() =~= once.dom());
    assert(fetch(once, first.0) == Some(first.1));
    assert(fetch(twice, first.0) == Some(second.1));
}

/// Of two different records with one key the later one stays: a full read
/// after both were set holds the second exactly once, and not the first.
pub proof fn last_write_wins<T: Keyable>(
    table: Map<Seq<u8>, Seq<u8>>,
    a: T,
    b: T,
    name: Seq<char>,
    first: (Seq<u8>, Seq<u8>),
    second: (Seq<u8>, Seq<u8>),
    keys: Seq<Seq<u8>>,
    values: Seq<Seq<u8>>,
    found: Seq<T>,
)
    requires
        key_is_fixed::<T>(),
        round_trips::<T>(),
        consistent::<T>(table),
        keyed(a, name),
        keyed(b, name),
        a != b,
        write_gives(a, Ok(first)),
        write_gives(b, Ok(second)),
        scans(put(put(table, first.0, first.1), second.0, second.1), keys, values),
        read_gives(values, None, Ok(found)),
    ensures
        exists|i: int|
            0 <= i < found.len() && found[i] == b && forall|j: int|
                0 <= j < found.len() && j != i ==> found[j] != b,
        !found.contains(a),
{
    let raw = encode_utf8(name);
    let after = put(put(table, first.0, first.1), second.0, second.1);
    assert(first.0 == raw && second.0 == raw);
    assert(after.contains_key(raw));
    let i = choose|i: int| 0 <= i < keys.len() && keys[i] == raw;
    assert(after.contains_key(keys[i]) && after[keys[i]] == values[i]);
    assert(decodes(values[i], Some(found[i])));
    assert(found[i] == b);
    lemma_ascending_distinct(keys);
    assert forall|j: int| 0 <= j < found.len() && j != i implies found[j] != b && found[j] != a by {
        assert(after.contains_key(keys[j]) && after[keys[j]] == values[j]);
        assert(keys[j] != raw);
        assert(table.contains_key(keys[j]) && table[keys[j]] == values[j]);
        assert(decodes(table[keys[j]], Some(found[j])));
    }
    if found.contains(a) {
        let j = choose|j: int| 0 <= j < found.len() && found[j] == a;
        assert(j != i);
    }
}

/// Deleting a key twice leaves what deleting it once leaves, the store has
/// nothing to fail on, and a lookup of the key finds no record afterwards.
pub proof fn delete_is_idempotent<T: Keyable>(table: Map<Seq<u8>, Seq<u8>>, key: Seq<u8>)
    ensures
        delete(delete(table, key), key) == delete(table, key),
        fetch(delete(table, key), key) is None,
        acknowledged(Ok(())) is Ok,
        forall|found: Result<Option<T>, StoreError>|
            #[trigger] lookup_gives(Ok(fetch(delete(table, key), key)), found) ==> found == Ok::<
                Option<T>,
                StoreError,
            >(None),
{
    assert(delete(delete(table, key), key) =~= delete(table, key));
}

/// A count gives the length of what a full read of the same scan gives.
pub proof fn count_is_length_of_all<T: Keyable>(
    values: Seq<Seq<u8>>,
    fault: Option<Fault>,
    found: Seq<T>,
)
    requires
        read_gives(values, fault, Ok(found)),
    ensures
        counted(values.len(), fault) == Ok::<nat, StoreError>(found.len()),
{
}

/// Bounded retention with nobody else writing: afterwards the namespace
/// holds at most `size` entries, and every key that left comes before every
/// key that stayed.
pub proof fn retention_keeps_the_last(
    table: Map<Seq<u8>, Seq<u8>>,
    keys: Seq<Seq<u8>>,
    values: Seq<Seq<u8>>,
    size: nat,
)
    requires
        scans(table, keys, values),
    ensures
        match excess_over(keys.len(), None, size) {
            Ok(None) => counted(keys.len(), None) is Ok && counted(keys.len(), None)->Ok_0 <= size,
            Ok(Some(excess)) => evicted(keys, None, excess) is Ok && ({
                let batch = evicted(keys, None, excess)->Ok_0;
                let left = delete_batch(table, batch);
                &&& left.dom().finite()
                &&& left.dom().len() <= size
                &&& forall|after: Seq<Seq<u8>>, held: Seq<Seq<u8>>| #[trigger]
                    scans(left, after, held) ==> counted(after.len(), None) is Ok && counted(
                        after.len(),
                        None,
                    )->Ok_0 <= size
                &&& forall|gone: Seq<u8>, kept: Seq<u8>|
                    batch.contains(gone) && #[trigger] left.contains_key(kept) ==> #[trigger] lex_lt(
                        gone,
                        kept,
                    )
            }),
            Err(_) => false,
        },
{
    if keys.len() > size {
        let excess = (keys.len() - size) as nat;
        let batch = keys.take(excess as int);
        let left = delete_batch(table, batch);
        lemma_scan_after_batch(table, keys, values, excess as int);
        lemma_scan_counts(left, keys.skip(excess as int), values.skip(excess as int));
        assert forall|after: Seq<Seq<u8>>, held: Seq<Seq<u8>>| #[trigger]
            scans(left, after, held) implies counted(after.len(), None) is Ok && counted(
            after.len(),
            None,
        )->Ok_0 <= size by {
            lemma_scan_counts(left, after, held);
        }
        assert forall|gone: Seq<u8>, kept: Seq<u8>|
            batch.contains(gone) && #[trigger] left.contains_key(kept) implies #[trigger] lex_lt(
            gone,
            kept,
        ) by {
            let i = choose|i: int| 0 <= i < batch.len() && batch[i] == gone;
            assert(keys.skip(excess as int).contains(kept));
            let j = choose|j: int|
                0 <= j < keys.skip(excess as int).len() && keys.skip(excess as int)[j] == kept;
            assert(lex_lt(keys[i], keys[j + excess]));
        }
    }
}

/// A key without a discriminator lies in a range of time exactly where its
/// instant does, both bounds included.
pub proof fn index_key_in_range(instant: int, start: int, end: int)
    requires
        0 <= instant <= MAX_TIMESTAMP,
        0 <= start <= MAX_TIMESTAMP,
        0 <= end <= MAX_TIMESTAMP,
    ensures
        in_time_range(index_bytes(instant), start, end) <==> start <= instant <= end,
        valid_utf8(index_bytes(instant)),
{
    lemma_index_reverses_time(instant, end);
    lemma_index_reverses_time(start, instant);
    lemma_index_chars_bytes(instant);
    encode_utf8_valid_utf8(index_chars(instant));
}

/// A key with a discriminator lies in a range of time where its instant
/// does, but for the lower bound: at that instant the key is longer than the
/// bound's, and so comes after it.
pub proof fn discriminated_key_in_range(instant: int, suffix: Seq<u8>, start: int, end: int)
    requires
        0 <= instant <= MAX_TIMESTAMP,
        0 <= start <= MAX_TIMESTAMP,
        0 <= end <= MAX_TIMESTAMP,
        suffix.len() > 0,
    ensures
        in_time_range(index_bytes(instant) + suffix, start, end) <==> start < instant <= end,
{
    let key = index_bytes(instant);
    let none = Seq::<u8>::empty();
    lemma_index_reverses_time(instant, end);
    lemma_index_reverses_time(start, instant);
    lemma_decimal_len(inverted(instant), INDEX_WIDTH as nat);
    lemma_decimal_len(inverted(start), INDEX_WIDTH as nat);
    lemma_decimal_len(inverted(end), INDEX_WIDTH as nat);
    lemma_lex_concat(index_bytes(end), none, key, suffix);
    lemma_lex_concat(key, suffix, index_bytes(start), none);
    assert(index_bytes(end) + none =~= index_bytes(end));
    assert(index_bytes(start) + none =~= index_bytes(start));
}

/// A read of a range of time picks exactly the entries of the instants in
/// the range, both bounds included, where every key is the key of an instant
/// without a discriminator. A range whose start lies after its end picks
/// none.
pub proof fn range_filter_is_exact(instants: Seq<int>, keys: Seq<Seq<u8>>, start: int, end: int)
    requires
        keys.len() == instants.len(),
        forall|i: int|
            0 <= i < instants.len() ==> 0 <= #[trigger] instants[i] <= MAX_TIMESTAMP && keys[i]
                == index_bytes(instants[i]),
        0 <= start <= MAX_TIMESTAMP,
        0 <= end <= MAX_TIMESTAMP,
    ensures
        selection(keys, start, end) == within(instants, start, end),
        forall|i: int| 0 <= i < keys.len() ==> valid_utf8(#[trigger] keys[i]),
        start > end ==> selection(keys, start, end).len() == 0,
    decreases keys.len(),
{
    if keys.len() > 0 {
        let last = keys.len() - 1;
        assert(0 <= instants[last] <= MAX_TIMESTAMP && keys[last] == index_bytes(instants[last]));
        assert forall|i: int| 0 <= i < instants.drop_last().len() implies 0 <= #[trigger] instants.drop_last()[i]
            <= MAX_TIMESTAMP && keys.drop_last()[i] == index_bytes(instants.drop_last()[i]) by {
            assert(0 <= instants[i] <= MAX_TIMESTAMP && keys[i] == index_bytes(instants[i]));
        }
        range_filter_is_exact(instants.drop_last(), keys.drop_last(), start, end);
        index_key_in_range(instants[last], start, end);
        assert forall|i: int| 0 <= i < keys.len() implies valid_utf8(#[trigger] keys[i]) by {
            if i < last {
                assert(keys[i] == keys.drop_last()[i]);
            }
        }
    }
}

/// `within` lists the positions of the instants in the range, each once, in
/// ascending order, and no other position.
pub proof fn lemma_within_is_the_range(instants: Seq<int>, start: int, end: int)
    ensures
        forall|j: int|
            0 <= j < within(instants, start, end).len() ==> 0 <= #[trigger] within(
                instants,
                start,
                end,
            )[j] < instants.len() && start <= instants[within(instants, start, end)[j]] <= end,
        forall|j: int, k: int|
            0 <= j < k < within(instants, start, end).len() ==> #[trigger] within(
                instants,
                start,
                end,
            )[j] < #[trigger] within(instants, start, end)[k],
        forall|i: int|
            0 <= i < instants.len() && start <= #[trigger] instants[i] <= end ==> within(
                instants,
                start,
                end,
            ).contains(i),
    decreases instants.len(),
{
    if instants.len() > 0 {
        let rest = within(instants.drop_last(), start, end);
        let all = within(instants, start, end);
        let last = instants.len() - 1;
        lemma_within_is_the_range(instants.drop_last(), start, end);
        assert forall|j: int| 0 <= j < all.len() implies 0 <= #[trigger] all[j] < instants.len() && start
            <= instants[all[j]] <= end by {
            if j < rest.len() {
                assert(all[j] == rest[j]);
                assert(instants[rest[j]] == instants.drop_last()[rest[j]]);
            }
        }
        assert forall|j: int, k: int| 0 <= j < k < all.len() implies #[trigger] all[j] < #[trigger] all[k] by {
            assert(all[j] == rest[j]);
            if k < rest.len() {
                assert(all[k] == rest[k]);
            }
        }
        assert forall|i: int| 0 <= i < instants.len() && start <= #[trigger] instants[i] <= end implies all.contains(
            i,
        ) by {
            if i < last {
                assert(instants.drop_last()[i] == instants[i]);
                let j = choose|j: int| 0 <= j < rest.len() && rest[j] == i;
                assert(all[j] == i);
            } else {
                assert(all[all.len() - 1] == i);
            }
        }
    }
}

/// A read of a range of time gives exactly the records of the instants in
/// the range, in the order of the scan, where every key is the key of an
/// instant without a discriminator: it fails only on a value in the range
/// that stands for no record.
pub proof fn range_filter_gives_the_range<T: Keyable>(
    instants: Seq<int>,
    keys: Seq<Seq<u8>>,
    values: Seq<Seq<u8>>,
    start: int,
    end: int,
    records: Result<Seq<T>, StoreError>,
)
    requires
        keys.len() == instants.len(),
        keys.len() == values.len(),
        forall|i: int|
            0 <= i < instants.len() ==> 0 <= #[trigger] instants[i] <= MAX_TIMESTAMP && keys[i]
                == index_bytes(instants[i]),
        0 <= start <= MAX_TIMESTAMP,
        0 <= end <= MAX_TIMESTAMP,
        filter_gives(keys, values, None, start, end, records),
    ensures
        match records {
            Ok(found) => found.len() == within(instants, start, end).len() && forall|j: int|
                0 <= j < found.len() ==> decodes(
                    values[within(instants, start, end)[j]],
                    Some(#[trigger] found[j]),
                ),
            Err(e) => e == StoreError::DecodeFailure && exists|i: int|
                0 <= i < instants.len() && start <= #[trigger] instants[i] <= end && decodes(
                    values[i],
                    None::<T>,
                ),
        },
        start > end ==> records == Ok::<Seq<T>, StoreError>(Seq::empty()),
{
    range_filter_is_exact(instants, keys, start, end);
    match records {
        Ok(found) => {
            if start > end {
                assert(found =~= Seq::empty());
            }
        },
        Err(e) => {
            let i = choose|i: int|
                0 <= i < keys.len() && (!valid_utf8(#[trigger] keys[i]) || (in_time_range(
                    keys[i],
                    start,
                    end,
                ) && decodes(values[i], None::<T>)));
            assert(0 <= instants[i] <= MAX_TIMESTAMP && keys[i] == index_bytes(instants[i]));
            index_key_in_range(instants[i], start, end);
        },
    }
}

} // verus!
