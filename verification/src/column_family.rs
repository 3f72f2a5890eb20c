//! The namespace accessor: records of one type, kept under their keys in one
//! namespace of the store.
//!
//! The accessor never touches the store. An operation that reads takes what
//! the store handed back and gives the records; an operation that writes
//! gives what the store has to be handed. Bounded retention does both in
//! turn: it takes a scan and gives the number of entries that are too many,
//! then takes a second scan and gives the keys that one batch must delete.
//!
//! Retention goes by the order of keys alone: the entries that leave are the
//! first of a scan, those with the least keys. Under the time index these are
//! the entries of the latest instants.

use vstd::prelude::*;
use vstd::string::StrSliceExecFns;
use vstd::utf8::{encode_utf8, valid_utf8};
use crate::error::{Fault, StoreError};
use crate::lex::{bytes_le, lex_le};
use crate::utils::{encode_index_bytes, index_bytes, MAX_TIMESTAMP};

verus! {

/// What a type must offer to be kept in a namespace: a key for each record,
/// the name of the namespace, and a codec between records and bytes.
///
/// The key of a record must be the same whenever it is asked for, and what
/// `encode` gave must `decode` to an equal record (`key_is_fixed`,
/// `round_trips`). Nothing here holds an implementation to that: the accessor
/// states of each operation what it gives in terms of what these methods can
/// return (`keyed`, `encodes`, `decodes`).
pub trait Keyable: Sized {
    /// The primary key of the record in its namespace.
    fn key(&self) -> String;

    /// The name of the namespace that holds the records of this type.
    fn column_family() -> &'static str;

    /// The bytes that stand for the record, or `None` where it has none.
    fn encode(&self) -> Option<Vec<u8>>;

    /// The record that `bytes` stand for, or `None` where they stand for none.
    fn decode(bytes: &[u8]) -> Option<Self>;
}

/// One stored pair, as the store's ordered iteration yields it.
#[derive(Debug, PartialEq, Eq)]
pub struct Entry {
    pub key: Vec<u8>,
    pub value: Vec<u8>,
}

impl View for Entry {
    type V = (Seq<u8>, Seq<u8>);

    open spec fn view(&self) -> (Seq<u8>, Seq<u8>) {
        (self.key@, self.value@)
    }
}

/// What an iteration over a namespace from its start yielded: the entries in
/// ascending order of their keys, up to the end of the namespace or to the
/// entry that the store failed on.
#[derive(Debug, PartialEq, Eq)]
pub struct Scan {
    /// The entries that were read, in the order in which they came.
    pub entries: Vec<Entry>,
    /// Why the iteration ended before the end of the namespace, if it did.
    pub fault: Option<Fault>,
}

impl Scan {
    /// The keys of the entries that were read, in the order in which they came.
    pub open spec fn keys(&self) -> Seq<Seq<u8>> {
        self.entries@.map_values(|e: Entry| e.key@)
    }

    /// The values of the entries that were read, in the order in which they
    /// came.
    pub open spec fn values(&self) -> Seq<Seq<u8>> {
        self.entries@.map_values(|e: Entry| e.value@)
    }
}

/// The keys in `keys`, each as the sequence of its bytes.
pub open spec fn raw_keys(keys: Seq<Vec<u8>>) -> Seq<Seq<u8>> {
    keys.map_values(|k: Vec<u8>| k@)
}

/// Whether `key` lies between the keys of the instants `end` and `start`,
/// both included: the key of the later instant is the lower bound.
pub open spec fn in_time_range(key: Seq<u8>, start: int, end: int) -> bool {
    lex_le(index_bytes(end), key) && lex_le(key, index_bytes(start))
}

/// `T::key` can give `key` for `item`.
pub open spec fn keyed<T: Keyable>(item: T, key: Seq<char>) -> bool {
    exists|k: String| call_ensures(T::key, (&item,), k) && k@ == key
}

/// `T::encode` can give `encoded` for `item`.
pub open spec fn encodes<T: Keyable>(item: T, encoded: Option<Seq<u8>>) -> bool {
    exists|e: Option<Vec<u8>>|
        call_ensures(T::encode, (&item,), e) && encoded == match e {
            Some(bytes) => Some(bytes@),
            None => None,
        }
}

/// `T::decode` can give `decoded` for `bytes`.
pub open spec fn decodes<T: Keyable>(bytes: Seq<u8>, decoded: Option<T>) -> bool {
    exists|raw: &[u8]| raw@ == bytes && call_ensures(T::decode, (raw,), decoded)
}

/// `T::decode` can give a record for `bytes`.
pub open spec fn decodable<T: Keyable>(bytes: Seq<u8>) -> bool {
    exists|record: T| decodes(bytes, Some(record))
}

/// A record of `T` has one key, however often it is asked for.
pub open spec fn key_is_fixed<T: Keyable>() -> bool {
    forall|item: T, first: Seq<char>, second: Seq<char>|
        keyed(item, first) && keyed(item, second) ==> first == second
}

/// The codec of `T` is exact: whatever a record was encoded to decodes to
/// that record.
pub open spec fn round_trips<T: Keyable>() -> bool {
    forall|item: T, bytes: Seq<u8>, decoded: Option<T>|
        encodes(item, Some(bytes)) && decodes(bytes, decoded) ==> decoded == Some(item)
}

/// What a read gives for the outcome of a decoding: bytes that stand for no
/// record are a failure, never an absence.
pub open spec fn record_or_failure<T>(decoded: Option<T>) -> Result<T, StoreError> {
    match decoded {
        Some(record) => Ok(record),
        None => Err(StoreError::DecodeFailure),
    }
}

/// `found` is what a lookup can give when the store answered it with
/// `fetched`.
pub open spec fn lookup_gives<T: Keyable>(
    fetched: Result<Option<Seq<u8>>, Fault>,
    found: Result<Option<T>, StoreError>,
) -> bool {
    match fetched {
        Err(fault) => found == Err::<Option<T>, StoreError>(fault.error()),
        Ok(None) => found == Ok::<Option<T>, StoreError>(None),
        Ok(Some(bytes)) => match found {
            Ok(Some(record)) => decodes(bytes, Some(record)),
            Ok(None) => false,
            Err(e) => e == StoreError::DecodeFailure && decodes(bytes, None::<T>),
        },
    }
}

/// `write` is what `set` can give for `item`: its key and its encoding, or a
/// failure where it has no encoding.
pub open spec fn write_gives<T: Keyable>(item: T, write: Result<(Seq<u8>, Seq<u8>), StoreError>) -> bool {
    match write {
        Ok(pair) => encodes(item, Some(pair.1)) && exists|key: Seq<char>|
            keyed(item, key) && pair.0 == encode_utf8(key),
        Err(e) => e == StoreError::EncodeFailure && encodes(item, None),
    }
}

/// `records` is what a full read can give for a scan with the values
/// `values` that ended with `fault`: a record for each value, in the order of
/// the scan, unless a value stands for none or the scan failed.
pub open spec fn read_gives<T: Keyable>(
    values: Seq<Seq<u8>>,
    fault: Option<Fault>,
    records: Result<Seq<T>, StoreError>,
) -> bool {
    match records {
        Ok(found) => fault is None && found.len() == values.len() && forall|i: int|
            0 <= i < values.len() ==> decodes(values[i], Some(#[trigger] found[i])),
        Err(e) => if e == StoreError::DecodeFailure {
            exists|i: int| 0 <= i < values.len() && decodes(#[trigger] values[i], None::<T>)
        } else {
            fault is Some && e == fault->0.error() && forall|i: int|
                0 <= i < values.len() ==> decodable::<T>(#[trigger] values[i])
        },
    }
}

/// The positions of the keys that lie in the range of time from `start` to
/// `end`, ascending.
pub open spec fn selection(keys: Seq<Seq<u8>>, start: int, end: int) -> Seq<int>
    decreases keys.len(),
{
    if keys.len() == 0 {
        Seq::empty()
    } else {
        let rest = selection(keys.drop_last(), start, end);
        if in_time_range(keys.last(), start, end) {
            rest.push(keys.len() - 1)
        } else {
            rest
        }
    }
}

/// `records` is what a read of the range of time from `start` to `end` can
/// give for a scan: a record for each entry whose key lies in the range, in
/// the order of the scan, unless one of their values stands for none, a key
/// is no text, or the scan failed.
pub open spec fn filter_gives<T: Keyable>(
    keys: Seq<Seq<u8>>,
    values: Seq<Seq<u8>>,
    fault: Option<Fault>,
    start: int,
    end: int,
    records: Result<Seq<T>, StoreError>,
) -> bool {
    match records {
        Ok(found) => fault is None && found.len() == selection(keys, start, end).len() && (forall|
            i: int,
        |
            0 <= i < keys.len() ==> valid_utf8(#[trigger] keys[i])) && forall|j: int|
            0 <= j < found.len() ==> decodes(
                values[selection(keys, start, end)[j]],
                Some(#[trigger] found[j]),
            ),
        Err(e) => if e == StoreError::DecodeFailure {
            exists|i: int|
                0 <= i < keys.len() && (!valid_utf8(#[trigger] keys[i]) || (in_time_range(
                    keys[i],
                    start,
                    end,
                ) && decodes(values[i], None::<T>)))
        } else {
            fault is Some && e == fault->0.error() && forall|i: int|
                0 <= i < keys.len() ==> valid_utf8(#[trigger] keys[i]) && (in_time_range(
                    keys[i],
                    start,
                    end,
                ) ==> decodable::<T>(values[i]))
        },
    }
}

/// What a write gives, from what the store answered to it.
pub open spec fn acknowledged(outcome: Result<(), Fault>) -> Result<(), StoreError> {
    match outcome {
        Ok(_) => Ok(()),
        Err(fault) => Err(fault.error()),
    }
}

/// What a count gives for a scan of `entries` entries that ended with
/// `fault`.
pub open spec fn counted(entries: nat, fault: Option<Fault>) -> Result<nat, StoreError> {
    match fault {
        Some(fault) => Err(fault.error()),
        None => Ok(entries),
    }
}

/// How many entries are too many for `size`, from a scan of `entries`
/// entries that ended with `fault`; `None` where none is.
pub open spec fn excess_over(entries: nat, fault: Option<Fault>, size: nat) -> Result<
    Option<nat>,
    StoreError,
> {
    match counted(entries, fault) {
        Err(e) => Err(e),
        Ok(count) => if count <= size {
            Ok(None)
        } else {
            Ok(Some((count - size) as nat))
        },
    }
}

/// The keys that leave when `excess` entries are too many: the first
/// `excess` keys of a scan, or all of them where it has no more. A scan that
/// failed fails the call unless more than `excess` entries were read before.
pub open spec fn evicted(keys: Seq<Seq<u8>>, fault: Option<Fault>, excess: nat) -> Result<
    Seq<Seq<u8>>,
    StoreError,
> {
    if fault is Some && keys.len() <= excess {
        Err(fault->0.error())
    } else if excess <= keys.len() {
        Ok(keys.take(excess as int))
    } else {
        Ok(keys)
    }
}

/// The view of a result that holds records.
pub open spec fn records_view<T>(result: Result<Vec<T>, StoreError>) -> Result<Seq<T>, StoreError> {
    match result {
        Ok(records) => Ok(records@),
        Err(e) => Err(e),
    }
}

/// Whether `bytes` are text in UTF-8. Calls `core::str::from_utf8`, which
/// succeeds on exactly the byte strings that are valid UTF-8.
#[verifier::external_body]
fn is_utf8(bytes: &[u8]) -> (ok: bool)
    ensures
        ok == valid_utf8(bytes@),
{
    core::str::from_utf8(bytes).is_ok()
}

/// Stored bytes that stand for no record are a failure, never an absence.
pub fn decoded_record<T>(decoded: Option<T>) -> (record: Result<T, StoreError>)
    ensures
        record == record_or_failure(decoded),
{
    match decoded {
        Some(r) => Ok(r),
        None => Err(StoreError::DecodeFailure),
    }
}

/// The pair to write for a record with the key `key` that was encoded to
/// `encoded`; a record without an encoding is not written.
pub fn entry_to_write(key: &str, encoded: Option<Vec<u8>>) -> (write: Result<Entry, StoreError>)
    ensures
        match encoded {
            Some(value) => write is Ok && write->Ok_0@ == (encode_utf8(key@), value@),
            None => write == Err::<Entry, StoreError>(StoreError::EncodeFailure),
        },
{
    match encoded {
        Some(value) => Ok(Entry { key: raw_key(key), value }),
        None => Err(StoreError::EncodeFailure),
    }
}

/// The key that the store knows a record by: the bytes of its key.
pub fn raw_key(key: &str) -> (raw: Vec<u8>)
    ensures
        raw@ == encode_utf8(key@),
{
    key.as_bytes_vec()
}

/// The accessor of the namespace that holds the records of type `T`. It
/// carries no data: any number of them may exist, and each is as good as
/// another.
pub struct ColumnFamily<T: Keyable> {
    _phantom: core::marker::PhantomData<T>,
}

impl<T: Keyable> Default for ColumnFamily<T> {
    fn default() -> (cf: Self)
        ensures
            cf == ColumnFamily::<T>::new_spec(),
    {
        Self::new()
    }
}

impl<T: Keyable> ColumnFamily<T> {
    /// The accessor that `new` gives.
    pub closed spec fn new_spec() -> Self {
        ColumnFamily { _phantom: core::marker::PhantomData }
    }

    /// An accessor holds nothing that could tell it from another of its
    /// namespace.
    pub proof fn lemma_interchangeable(self, other: Self)
        ensures
            self == other,
    {
    }

    /// An accessor for the namespace of `T`.
    pub fn new() -> (cf: Self)
        ensures
            cf == Self::new_spec(),
    {
        ColumnFamily { _phantom: core::marker::PhantomData }
    }

    /// The record under a key, from what the store answered when it was asked
    /// for that key. An absent key gives no record and is no error; bytes
    /// that stand for no record are one.
    pub fn get(&self, fetched: Result<Option<Vec<u8>>, Fault>) -> (found: Result<Option<T>, StoreError>)
        ensures
            lookup_gives(
                match fetched {
                    Ok(Some(bytes)) => Ok(Some(bytes@)),
                    Ok(None) => Ok(None),
                    Err(fault) => Err(fault),
                },
                found,
            ),
    {
        match fetched {
            Err(fault) => Err(fault.to_error()),
            Ok(None) => Ok(None),
            Ok(Some(bytes)) => {
                let raw = bytes.as_slice();
                let decoded = T::decode(raw);
                assert(decodes(bytes@, decoded));
                match decoded_record(decoded) {
                    Ok(record) => Ok(Some(record)),
                    Err(e) => Err(e),
                }
            },
        }
    }

    /// The pair that the store must put to hold `item`: its key and its
    /// encoding. The store overwrites what it holds under that key.
    pub fn set(&self, item: &T) -> (write: Result<Entry, StoreError>)
        ensures
            write_gives(
                *item,
                match write {
                    Ok(entry) => Ok(entry@),
                    Err(e) => Err(e),
                },
            ),
    {
        let key = item.key();
        let encoded = item.encode();
        assert(keyed(*item, key@));
        assert(encodes(
            *item,
            match encoded {
                Some(bytes) => Some(bytes@),
                None => None,
            },
        ));
        entry_to_write(key.as_str(), encoded)
    }

    /// The key that the store must delete to drop the record under `key`.
    /// The store deletes without looking: a key that it does not hold is no
    /// error.
    pub fn del(&self, key: &str) -> (raw: Vec<u8>)
        ensures
            raw@ == encode_utf8(key@),
    {
        raw_key(key)
    }

    /// The result of a `set`, a `del` or a batch of deletions, from what the
    /// store answered to the write.
    pub fn written(&self, outcome: Result<(), Fault>) -> (done: Result<(), StoreError>)
        ensures
            done == acknowledged(outcome),
    {
        match outcome {
            Ok(()) => Ok(()),
            Err(fault) => Err(fault.to_error()),
        }
    }

    /// All records of the namespace, in ascending order of their keys, from a
    /// scan of it. The first entry that cannot be read or decoded fails the
    /// call: there is no partial result.
    pub fn get_all(&self, scan: &Scan) -> (records: Result<Vec<T>, StoreError>)
        ensures
            read_gives(scan.values(), scan.fault, records_view(records)),
    {
        let mut items: Vec<T> = Vec::new();
        let ghost values = scan.values();
        let count = scan.entries.len();
        let mut at: usize = 0;
        while at < count
            invariant
                at <= count,
                count == scan.entries@.len(),
                values == scan.values(),
                items@.len() == at,
                forall|i: int| 0 <= i < at ==> decodes(values[i], Some(#[trigger] items@[i])),
            decreases count - at,
        {
            let raw = scan.entries[at].value.as_slice();
            let decoded = T::decode(raw);
            assert(raw@ == values[at as int]);
            assert(decodes(values[at as int], decoded));
            match decoded_record(decoded) {
                Ok(record) => {
                    items.push(record);
                },
                Err(e) => {
                    return Err(e);
                },
            }
            at += 1;
        }
        proof {
            assert forall|i: int| 0 <= i < values.len() implies decodable::<T>(#[trigger] values[i]) by {
                assert(decodes(values[i], Some(items@[i])));
            }
        }
        match scan.fault {
            Some(fault) => Err(fault.to_error()),
            None => Ok(items),
        }
    }

    /// The number of entries in the namespace, from a scan of it. No value is
    /// decoded; a scan that failed on an entry fails the count.
    pub fn count_all(&self, scan: &Scan) -> (count: Result<usize, StoreError>)
        ensures
            match count {
                Ok(n) => counted(scan.entries@.len(), scan.fault) == Ok::<nat, StoreError>(n as nat),
                Err(e) => counted(scan.entries@.len(), scan.fault) == Err::<nat, StoreError>(e),
            },
    {
        match scan.fault {
            Some(fault) => Err(fault.to_error()),
            None => Ok(scan.entries.len()),
        }
    }

    /// The first half of bounded retention: from a scan that counts the
    /// namespace, the number of entries that are too many for `size`, or
    /// `None` where nothing has to leave. Where a number is given, the
    /// namespace is scanned again and `evicted_keys` picks what leaves. The
    /// two scans and the batch are three steps: a write that lands between
    /// them may be evicted, or may change which entries are, so callers that
    /// need the bound to hold at all times let one retention run at a time.
    pub fn keep_size(&self, size: usize, counted: &Scan) -> (excess: Result<Option<usize>, StoreError>)
        ensures
            excess_over(counted.entries@.len(), counted.fault, size as nat) == match excess {
                Ok(Some(n)) => Ok::<Option<nat>, StoreError>(Some(n as nat)),
                Ok(None) => Ok(None),
                Err(e) => Err(e),
            },
    {
        match self.count_all(counted) {
            Err(e) => Err(e),
            Ok(current) => if current <= size {
                Ok(None)
            } else {
                Ok(Some(current - size))
            },
        }
    }

    /// The second half of bounded retention: the keys that one batch must
    /// delete, which are those of the first `excess` entries of a scan, the
    /// least in the order of keys. The scan is read up to the entry after
    /// them: only a failure that far fails the call. The result of the batch
    /// goes through `written`.
    pub fn evicted_keys(&self, excess: usize, scanned: &Scan) -> (keys: Result<Vec<Vec<u8>>, StoreError>)
        ensures
            evicted(scanned.keys(), scanned.fault, excess as nat) == match keys {
                Ok(batch) => Ok::<Seq<Seq<u8>>, StoreError>(raw_keys(batch@)),
                Err(e) => Err(e),
            },
            keys is Ok ==> keys->Ok_0@.len() == (if excess <= scanned.entries@.len() {
                excess as int
            } else {
                scanned.entries@.len() as int
            }) && forall|i: int|
                0 <= i < keys->Ok_0@.len() ==> (#[trigger] keys->Ok_0@[i])@ == scanned.entries@[i].key@,
    {
        let mut batch: Vec<Vec<u8>> = Vec::new();
        let count = scanned.entries.len();
        let mut at: usize = 0;
        while at < count && at < excess
            invariant
                at <= count,
                at <= excess,
                count == scanned.entries@.len(),
                batch@.len() == at,
                raw_keys(batch@) == scanned.keys().take(at as int),
            decreases count - at,
        {
            let key = scanned.entries[at].key.clone();
            batch.push(key);
            proof {
                assert(raw_keys(batch@) =~= scanned.keys().take(at as int).push(
                    scanned.entries@[at as int].key@,
                ));
                assert(scanned.keys().take(at + 1) =~= scanned.keys().take(at as int).push(
                    scanned.entries@[at as int].key@,
                ));
            }
            at += 1;
        }
        proof {
            assert(scanned.keys().take(count as int) =~= scanned.keys());
            assert forall|i: int| 0 <= i < batch@.len() implies (#[trigger] batch@[i])@
                == scanned.entries@[i].key@ by {
                assert(raw_keys(batch@)[i] == scanned.keys().take(at as int)[i]);
            }
        }
        if count <= excess {
            match scanned.fault {
                Some(fault) => Err(fault.to_error()),
                None => Ok(batch),
            }
        } else {
            Ok(batch)
        }
    }

    /// The records of the instants from `start_time` to `end_time`, both
    /// included, in the order of the scan. The bounds are swapped into keys:
    /// the key of `end_time` is the lower one. Only the entries whose keys lie
    /// between the two are decoded.
    pub fn filter_by_time_index(&self, start_time: u64, end_time: u64, scan: &Scan) -> (records: Result<
        Vec<T>,
        StoreError,
    >)
        requires
            start_time <= MAX_TIMESTAMP,
            end_time <= MAX_TIMESTAMP,
        ensures
            filter_gives(
                scan.keys(),
                scan.values(),
                scan.fault,
                start_time as int,
                end_time as int,
                records_view(records),
            ),
    {
        let start_key = encode_index_bytes(end_time as i64);
        let end_key = encode_index_bytes(start_time as i64);
        let mut items: Vec<T> = Vec::new();
        let ghost keys = scan.keys();
        let ghost values = scan.values();
        let ghost lo = start_time as int;
        let ghost hi = end_time as int;
        let ghost mut picked: Seq<int> = Seq::empty();
        let count = scan.entries.len();
        let mut at: usize = 0;
        while at < count
            invariant
                at <= count,
                count == scan.entries@.len(),
                keys == scan.keys(),
                values == scan.values(),
                lo == start_time as int,
                hi == end_time as int,
                start_key@ == index_bytes(hi),
                end_key@ == index_bytes(lo),
                forall|i: int|
                    0 <= i < at ==> valid_utf8(#[trigger] keys[i]) && (in_time_range(keys[i], lo, hi)
                        ==> decodable::<T>(values[i])),
                picked == selection(keys.take(at as int), lo, hi),
                items@.len() == picked.len(),
                forall|j: int|
                    0 <= j < picked.len() ==> 0 <= #[trigger] picked[j] < at && decodes(
                        values[picked[j]],
                        Some(items@[j]),
                    ),
            decreases count - at,
        {
            let entry = &scan.entries[at];
            assert(keys[at as int] == entry.key@);
            assert(values[at as int] == entry.value@);
            assert(keys.take(at + 1).drop_last() =~= keys.take(at as int));
            assert(keys.take(at + 1).last() == keys[at as int]);
            if !is_utf8(entry.key.as_slice()) {
                return Err(StoreError::DecodeFailure);
            }
            if bytes_le(start_key.as_slice(), entry.key.as_slice()) && bytes_le(
                entry.key.as_slice(),
                end_key.as_slice(),
            ) {
                let raw = entry.value.as_slice();
                let decoded = T::decode(raw);
                assert(decodes(values[at as int], decoded));
                let ghost held = items@;
                let ghost prior = picked;
                match decoded_record(decoded) {
                    Ok(record) => {
                        items.push(record);
                    },
                    Err(e) => {
                        return Err(e);
                    },
                }
                proof {
                    picked = picked.push(at as int);
                    assert forall|j: int| 0 <= j < picked.len() implies 0 <= #[trigger] picked[j] < at + 1
                        && decodes(values[picked[j]], Some(items@[j])) by {
                        if j < prior.len() {
                            assert(items@[j] == held[j]);
                            assert(picked[j] == prior[j]);
                        }
                    }
                }
            }
            at += 1;
        }
        assert(keys.take(count as int) =~= keys);
        match scan.fault {
            Some(fault) => Err(fault.to_error()),
            None => Ok(items),
        }
    }
}

} // verus!
