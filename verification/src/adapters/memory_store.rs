use crate::domain::model::{is_valid_identity, lemma_identity_check_ok, CallbackRecord, Identity};
use crate::domain::ports::{listing_view, valid_records, CallbackStore, StoreError};
use crate::domain::tables::{
    entries_map, entries_view, entry_view, keys_distinct, lemma_entries_map_dom, IdentitySet,
    RecordMap,
};
use std::time::{Duration, SystemTime};
use vstd::prelude::*;
use vstd::string::*;

verus! {

#[verifier::external_type_specification]
#[verifier::external_body]
pub struct ExSystemTime(SystemTime);

/// `SystemTime::now`: the system clock's reading; nothing is promised of it.
#[verifier::external_body]
fn system_now() -> SystemTime {
    SystemTime::now()
}

/// `SystemTime::duration_since(UNIX_EPOCH)`: the time elapsed since the Unix
/// epoch, or `None` when the reading lies before it. The duration is opaque
/// here: nothing is stated of it.
#[verifier::external_body]
fn since_unix_epoch(t: &SystemTime) -> Option<Duration> {
    t.duration_since(std::time::UNIX_EPOCH).ok()
}

/// `Duration::as_secs`: the whole seconds of a duration; the duration is
/// opaque here, so nothing is stated of the result.
#[verifier::external_body]
fn whole_seconds(d: &Duration) -> u64 {
    d.as_secs()
}

/// The current UTC Unix time in seconds; 0 when the clock reads before the
/// epoch.
fn current_timestamp() -> i64 {
    let now = system_now();
    let secs = match since_unix_epoch(&now) {
        Some(d) => whole_seconds(&d),
        None => 0,
    };
    #[verifier::truncate]
    (secs as i64)
}

/// The entries of a list whose key is a valid identity, in order.
pub open spec fn valid_entries(s: Seq<(Seq<char>, CallbackRecord)>) -> Seq<(Seq<char>, CallbackRecord)>
    decreases s.len(),
{
    if s.len() == 0 {
        s
    } else if is_valid_identity(s.last().0) {
        valid_entries(s.drop_last()).push(s.last())
    } else {
        valid_entries(s.drop_last())
    }
}

proof fn lemma_valid_entries(s: Seq<(Seq<char>, CallbackRecord)>)
    requires
        keys_distinct(s),
    ensures
        keys_distinct(valid_entries(s)),
        entries_map(valid_entries(s)) == valid_records(entries_map(s)),
        forall|i: int|
            0 <= i < valid_entries(s).len() ==> exists|j: int|
                0 <= j < s.len() && s[j] == #[trigger] valid_entries(s)[i],
    decreases s.len(),
{
    if s.len() > 0 {
        let r = s.drop_last();
        assert(keys_distinct(r));
        lemma_valid_entries(r);
        let vr = valid_entries(r);
        let last = s.last();
        assert forall|i: int| 0 <= i < valid_entries(s).len() implies exists|j: int|
            0 <= j < s.len() && s[j] == #[trigger] valid_entries(s)[i] by {
            if is_valid_identity(last.0) && i == vr.len() {
                assert(s[s.len() - 1] == valid_entries(s)[i]);
            } else {
                assert(valid_entries(s)[i] == vr[i]);
                let j = choose|j: int| 0 <= j < r.len() && r[j] == vr[i];
                assert(s[j] == r[j]);
            }
        }
        lemma_entries_map_dom(r, last.0);
        if exists|j: int| 0 <= j < r.len() && r[j].0 == last.0 {
            let j = choose|j: int| 0 <= j < r.len() && r[j].0 == last.0;
            assert(s[j].0 == s[s.len() - 1].0);
        }
        if is_valid_identity(last.0) {
            let vs = vr.push(last);
            assert(keys_distinct(vs)) by {
                assert forall|a: int, b: int|
                    0 <= a < vs.len() && 0 <= b < vs.len() && a != b implies vs[a].0 != vs[b].0 by {
                    if a < vr.len() && b < vr.len() {
                        assert(vs[a] == vr[a] && vs[b] == vr[b]);
                    } else if a == vr.len() {
                        assert(vs[b] == vr[b]);
                        let j = choose|j: int| 0 <= j < r.len() && r[j] == vr[b];
                        assert(s[j] == r[j]);
                    } else {
                        assert(vs[a] == vr[a]);
                        let j = choose|j: int| 0 <= j < r.len() && r[j] == vr[a];
                        assert(s[j] == r[j]);
                    }
                }
            }
            assert(vs.drop_last() =~= vr);
            assert(entries_map(vs) =~= valid_records(entries_map(s)));
        } else {
            assert(entries_map(vr) =~= valid_records(entries_map(s)));
        }
    }
}

/// In-memory implementation of `CallbackStore`.
pub struct InMemoryStore {
    data: RecordMap,
    allowed_identities: Option<IdentitySet>,
}

/// The allow-list a store was made with, as a set of names.
pub open spec fn allow_list_of(allowed: Option<IdentitySet>) -> Option<Set<Seq<char>>> {
    match allowed {
        None => None,
        Some(names) => Some(names@),
    }
}

impl InMemoryStore {
    /// A store with no records. With `None` every identity is accepted;
    /// otherwise only the names in the set are.
    pub fn new(allowed_identities: Option<IdentitySet>) -> (r: Self)
        ensures
            r.records() == Map::<Seq<char>, CallbackRecord>::empty(),
            r.allow_list() == allow_list_of(allowed_identities),
            r.is_infallible(),
    {
        InMemoryStore { data: RecordMap::new(), allowed_identities }
    }

    /// Whether the store accepts `identity`.
    fn is_allowed(&self, identity: &Identity) -> (b: bool)
        ensures
            b == crate::domain::ports::admits(self.allow_list(), identity@),
    {
        match &self.allowed_identities {
            None => true,
            Some(allowed) => allowed.contains(identity.as_str()),
        }
    }
}

impl CallbackStore for InMemoryStore {
    closed spec fn records(&self) -> Map<Seq<char>, CallbackRecord> {
        self.data@
    }

    closed spec fn allow_list(&self) -> Option<Set<Seq<char>>> {
        allow_list_of(self.allowed_identities)
    }

    open spec fn is_infallible(&self) -> bool {
        true
    }

    fn record_callback_at(&mut self, identity: &Identity, timestamp: i64) -> (r: Result<
        (),
        StoreError,
    >)
    {
        if !self.is_allowed(identity) {
            return Err(StoreError::IdentityNotAllowed(String::from_str(identity.as_str())));
        }
        let record = match self.data.get(identity.as_str()) {
            Some(existing) => {
                let mut updated = existing;
                updated.record_callback(timestamp);
                updated
            },
            None => CallbackRecord::new(timestamp),
        };
        self.data.insert(String::from_str(identity.as_str()), record);
        Ok(())
    }

    fn record_callback(&mut self, identity: &Identity) -> (r: Result<(), StoreError>)
    {
        let timestamp = current_timestamp();
        self.record_callback_at(identity, timestamp)
    }

    fn get_record(&self, identity: &Identity) -> (r: Result<Option<CallbackRecord>, StoreError>)
    {
        Ok(self.data.get(identity.as_str()))
    }

    fn get_all_records(&self) -> (r: Result<Vec<(Identity, CallbackRecord)>, StoreError>)
    {
        let entries = self.data.to_entries();
        let ghost ev = entries_view(entries@);
        let mut records: Vec<(Identity, CallbackRecord)> = Vec::new();
        let mut i: usize = 0;
        while i < entries.len()
            invariant
                i <= entries@.len(),
                ev == entries_view(entries@),
                listing_view(records@) == valid_entries(ev.take(i as int)),
            decreases entries.len() - i,
        {
            let ghost prev = records@;
            proof {
                assert(ev.take(i + 1).drop_last() =~= ev.take(i as int));
                assert(ev.take(i + 1).last() == entry_view(entries@[i as int]));
                lemma_identity_check_ok(entries@[i as int].0@);
            }
            match Identity::new(entries[i].0.clone()) {
                Ok(identity) => {
                    let e = (identity, entries[i].1);
                    records.push(e);
                    proof {
                        assert(records@ =~= prev.push(e));
                        assert(listing_view(records@) =~= listing_view(prev).push((e.0@, e.1)));
                    }
                },
                Err(_) => {},
            }
            i = i + 1;
        }
        proof {
            assert(ev.take(i as int) =~= ev);
            lemma_valid_entries(ev);
        }
        Ok(records)
    }

    fn load_snapshot(&mut self, data: RecordMap) -> (r: Result<(), StoreError>)
    {
        self.data = data;
        Ok(())
    }

    fn snapshot(&self) -> (r: Result<RecordMap, StoreError>)
    {
        Ok(self.data.clone())
    }
}

} // verus!
