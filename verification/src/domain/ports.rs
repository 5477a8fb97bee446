use crate::domain::model::{
    first_record, is_valid_identity, record_after, CallbackRecord, Identity,
};
use crate::domain::tables::{
    entries_map, keys_distinct, lemma_entries_map_dom, lemma_entries_map_value, RecordMap,
};
use vstd::prelude::*;
use vstd::string::*;

verus! {

/// Errors that can occur in the callback store.
#[derive(Debug, Clone)]
pub enum StoreError {
    IdentityNotAllowed(String),
    StoreFull,
    Internal(String),
}

/// The message that describes a store error.
pub open spec fn store_error_text(e: StoreError) -> Seq<char> {
    match e {
        StoreError::IdentityNotAllowed(id) => "Identity not allowed: "@ + id@,
        StoreError::StoreFull => "Store capacity exceeded"@,
        StoreError::Internal(msg) => "Internal store error: "@ + msg@,
    }
}

impl StoreError {
    /// The message that describes this error.
    pub fn to_string(&self) -> (r: String)
        ensures
            r@ == store_error_text(*self),
    {
        match self {
            StoreError::IdentityNotAllowed(id) => {
                let mut s = String::from_str("Identity not allowed: ");
                s.append(id.as_str());
                s
            },
            StoreError::StoreFull => String::from_str("Store capacity exceeded"),
            StoreError::Internal(msg) => {
                let mut s = String::from_str("Internal store error: ");
                s.append(msg.as_str());
                s
            },
        }
    }
}

/// Whether an allow-list lets `identity` through; no list lets every
/// identity through.
pub open spec fn admits(allow_list: Option<Set<Seq<char>>>, identity: Seq<char>) -> bool {
    match allow_list {
        None => true,
        Some(names) => names.contains(identity),
    }
}

/// The records after a callback for `identity` at `timestamp`: its record
/// is updated, or created with a count of one.
pub open spec fn records_after_callback(
    records: Map<Seq<char>, CallbackRecord>,
    identity: Seq<char>,
    timestamp: i64,
) -> Map<Seq<char>, CallbackRecord> {
    records.insert(
        identity,
        if records.contains_key(identity) {
            record_after(records[identity], timestamp)
        } else {
            first_record(timestamp)
        },
    )
}

/// The record stored for `identity`, if any.
pub open spec fn lookup(records: Map<Seq<char>, CallbackRecord>, identity: Seq<char>) -> Option<
    CallbackRecord,
> {
    if records.contains_key(identity) {
        Some(records[identity])
    } else {
        None
    }
}

/// The records whose key is a valid identity.
pub open spec fn valid_records(records: Map<Seq<char>, CallbackRecord>) -> Map<
    Seq<char>,
    CallbackRecord,
> {
    Map::new(|k: Seq<char>| records.contains_key(k) && is_valid_identity(k), |k: Seq<char>| records[k])
}

/// A listing of records seen as plain values.
pub open spec fn listing_view(v: Seq<(Identity, CallbackRecord)>) -> Seq<(Seq<char>, CallbackRecord)> {
    v.map_values(|e: (Identity, CallbackRecord)| (e.0@, e.1))
}

/// A listing holds each record whose key is a valid identity, once.
pub open spec fn lists_records(
    v: Seq<(Seq<char>, CallbackRecord)>,
    records: Map<Seq<char>, CallbackRecord>,
) -> bool {
    &&& keys_distinct(v)
    &&& crate::domain::tables::entries_map(v) == valid_records(records)
}

/// Interface for storing and retrieving callback records.
pub trait CallbackStore: Sized {
    /// The records held, by identity.
    spec fn records(&self) -> Map<Seq<char>, CallbackRecord>;

    /// The identities accepted; `None` accepts every identity.
    spec fn allow_list(&self) -> Option<Set<Seq<char>>>;

    /// The store never fails for reasons of its own: the only error it
    /// gives is a refused identity.
    spec fn is_infallible(&self) -> bool;

    /// Records a callback for `identity` at `timestamp`.
    fn record_callback_at(&mut self, identity: &Identity, timestamp: i64) -> (r: Result<
        (),
        StoreError,
    >)
        ensures
            final(self).allow_list() == old(self).allow_list(),
            final(self).is_infallible() == old(self).is_infallible(),
            old(self).is_infallible() && admits(old(self).allow_list(), identity@) ==> r is Ok,
            r is Ok ==> admits(old(self).allow_list(), identity@) && final(self).records()
                == records_after_callback(old(self).records(), identity@, timestamp),
            r is Err ==> final(self).records() == old(self).records(),
            !admits(old(self).allow_list(), identity@) ==> (r matches Err(
                StoreError::IdentityNotAllowed(name),
            ) && name@ == identity@),
    ;

    /// Records a callback for `identity` at the current time.
    fn record_callback(&mut self, identity: &Identity) -> (r: Result<(), StoreError>)
        ensures
            final(self).allow_list() == old(self).allow_list(),
            final(self).is_infallible() == old(self).is_infallible(),
            old(self).is_infallible() && admits(old(self).allow_list(), identity@) ==> r is Ok,
            r is Ok ==> admits(old(self).allow_list(), identity@) && exists|timestamp: i64|
                final(self).records() == records_after_callback(
                    old(self).records(),
                    identity@,
                    timestamp,
                ),
            r is Err ==> final(self).records() == old(self).records(),
            !admits(old(self).allow_list(), identity@) ==> (r matches Err(
                StoreError::IdentityNotAllowed(name),
            ) && name@ == identity@),
    ;

    /// The record of `identity`; `None` if it never called back.
    fn get_record(&self, identity: &Identity) -> (r: Result<Option<CallbackRecord>, StoreError>)
        ensures
            self.is_infallible() ==> r is Ok,
            r matches Ok(found) ==> found == lookup(self.records(), identity@),
    ;

    /// Every record whose key is a valid identity, each once.
    fn get_all_records(&self) -> (r: Result<Vec<(Identity, CallbackRecord)>, StoreError>)
        ensures
            self.is_infallible() ==> r is Ok,
            r matches Ok(v) ==> lists_records(listing_view(v@), self.records()),
    ;

    /// Replaces the records with `data`.
    fn load_snapshot(&mut self, data: RecordMap) -> (r: Result<(), StoreError>)
        ensures
            final(self).allow_list() == old(self).allow_list(),
            final(self).is_infallible() == old(self).is_infallible(),
            old(self).is_infallible() ==> r is Ok,
            r is Ok ==> final(self).records() == data@,
            r is Err ==> final(self).records() == old(self).records(),
    ;

    /// A copy of the records.
    fn snapshot(&self) -> (r: Result<RecordMap, StoreError>)
        ensures
            self.is_infallible() ==> r is Ok,
            r matches Ok(m) ==> m@ == self.records(),
    ;
}

/// After a callback, looking the identity up gives its updated record: the
/// callback's time, and a count one higher (or 1 for a first callback).
pub proof fn lemma_callback_then_lookup(
    records: Map<Seq<char>, CallbackRecord>,
    identity: Seq<char>,
    timestamp: i64,
)
    ensures
        lookup(records_after_callback(records, identity, timestamp), identity) == Some(
            match lookup(records, identity) {
                Some(r) => record_after(r, timestamp),
                None => first_record(timestamp),
            },
        ),
{
}

/// A callback leaves the records of every other identity as they were.
pub proof fn lemma_callback_isolated(
    records: Map<Seq<char>, CallbackRecord>,
    identity: Seq<char>,
    other: Seq<char>,
    timestamp: i64,
)
    requires
        other != identity,
    ensures
        lookup(records_after_callback(records, identity, timestamp), other) == lookup(
            records,
            other,
        ),
{
}

/// A listing of the records names every stored valid identity exactly
/// once, with its record, and nothing else.
pub proof fn lemma_listing_complete(
    v: Seq<(Seq<char>, CallbackRecord)>,
    records: Map<Seq<char>, CallbackRecord>,
    k: Seq<char>,
)
    requires
        lists_records(v, records),
    ensures
        (records.contains_key(k) && is_valid_identity(k)) <==> exists|i: int|
            0 <= i < v.len() && v[i].0 == k,
        forall|i: int| 0 <= i < v.len() && v[i].0 == k ==> v[i].1 == records[k],
        forall|i: int, j: int|
            0 <= i < v.len() && 0 <= j < v.len() && v[i].0 == k && v[j].0 == k ==> i == j,
{
    lemma_entries_map_dom(v, k);
    assert forall|i: int| 0 <= i < v.len() && v[i].0 == k implies v[i].1 == records[k] by {
        lemma_entries_map_value(v, i);
    }
}

} // verus!
