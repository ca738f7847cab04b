//! The transaction table: the one shared structure of the gateway. It maps
//! `(Call-ID, method)` to the addressing context captured from the original
//! external INVITE, so that later responses and in-dialog requests can be
//! routed back. Entries are inserted only when absent, read by clone, removed
//! on dialog teardown, and swept once they have idled past a maximum age.

use vstd::prelude::*;

use crate::config::{AddrModel, NetAddr};

verus! {

/// Entries idle for at least this many seconds are removed by the sweep.
pub const MAX_TRANSACTION_AGE_SECS: u64 = 120;

/// The period of the background expiration sweep, in seconds.
pub const SWEEP_INTERVAL_SECS: u64 = 60;

/// The mathematical model of one table entry.
pub struct InfoModel {
    pub original_client_addr: AddrModel,
    pub original_via_headers: Seq<Seq<char>>,
    pub original_contact_header: Seq<char>,
    pub record_route_header: Option<Seq<char>>,
    pub created_at: u64,
}

/// The addressing context of one transaction, captured from the external
/// peer's INVITE and never rewritten afterwards.
pub struct TransactionInfo {
    /// The external peer the INVITE came from: where responses and in-dialog
    /// requests of this call are sent.
    pub original_client_addr: NetAddr,
    /// The complete `Via` chain received on the INVITE, verbatim and in
    /// order; restored onto outbound responses.
    pub original_via_headers: Vec<String>,
    /// The peer's `Contact` value from the INVITE.
    pub original_contact_header: String,
    /// The `Record-Route` captured from the INVITE, if any; echoed back as a
    /// `Route` header on outbound in-dialog requests.
    pub record_route_header: Option<String>,
    /// Insertion time in seconds; used solely for expiration.
    pub created_at: u64,
}

impl View for TransactionInfo {
    type V = InfoModel;

    open spec fn view(&self) -> InfoModel {
        InfoModel {
            original_client_addr: self.original_client_addr@,
            original_via_headers: self.original_via_headers.deep_view(),
            original_contact_header: self.original_contact_header@,
            record_route_header: self.record_route_header.deep_view(),
            created_at: self.created_at,
        }
    }
}

impl DeepView for TransactionInfo {
    type V = InfoModel;

    open spec fn deep_view(&self) -> InfoModel {
        self@
    }
}

impl TransactionInfo {
    /// A copy of this entry, as handed out by table lookups.
    pub fn duplicate(&self) -> (r: TransactionInfo)
        ensures
            r@ == self@,
    {
        let vias = self.original_via_headers.clone();
        proof {
            assert(vias.deep_view() =~= self.original_via_headers.deep_view());
        }
        let rr = match &self.record_route_header {
            Some(s) => Some(s.clone()),
            None => None,
        };
        TransactionInfo {
            original_client_addr: self.original_client_addr.duplicate(),
            original_via_headers: vias,
            original_contact_header: self.original_contact_header.clone(),
            record_route_header: rr,
            created_at: self.created_at,
        }
    }
}

/// A transaction key: Call-ID and method.
pub type TransactionKey = (String, String);

/// The model key: Call-ID and method as character sequences.
pub type KeyModel = (Seq<char>, Seq<char>);

/// The map described by an entry sequence; on a repeated key the later entry
/// wins (the table keeps keys unique, so repetition does not arise).
pub open spec fn entries_map(s: Seq<(KeyModel, InfoModel)>) -> Map<KeyModel, InfoModel>
    decreases s.len(),
{
    if s.len() == 0 {
        Map::empty()
    } else {
        entries_map(s.drop_last()).insert(s.last().0, s.last().1)
    }
}

/// Whether some entry of `s` has key `k`.
pub open spec fn has_entry_key(s: Seq<(KeyModel, InfoModel)>, k: KeyModel) -> bool {
    exists|i: int| 0 <= i < s.len() && s[i].0 == k
}

/// Whether the keys of `s` are pairwise distinct.
pub open spec fn keys_unique(s: Seq<(KeyModel, InfoModel)>) -> bool {
    forall|i: int, j: int| 0 <= i < j < s.len() ==> s[i].0 != s[j].0
}

/// Whether an entry created at `created` has idled past `max_age` at `now`.
pub open spec fn expired(created: u64, now: u64, max_age: u64) -> bool {
    created <= now && now - created >= max_age
}

/// `s` without every entry keyed `k`.
pub open spec fn drop_key(s: Seq<(KeyModel, InfoModel)>, k: KeyModel) -> Seq<
    (KeyModel, InfoModel),
>
    decreases s.len(),
{
    if s.len() == 0 {
        s
    } else {
        let rest = drop_key(s.drop_last(), k);
        if s.last().0 == k {
            rest
        } else {
            rest.push(s.last())
        }
    }
}

/// `s` without every entry that has expired at `now`.
pub open spec fn drop_expired(s: Seq<(KeyModel, InfoModel)>, now: u64, max_age: u64) -> Seq<
    (KeyModel, InfoModel),
>
    decreases s.len(),
{
    if s.len() == 0 {
        s
    } else {
        let rest = drop_expired(s.drop_last(), now, max_age);
        if expired(s.last().1.created_at, now, max_age) {
            rest
        } else {
            rest.push(s.last())
        }
    }
}

pub proof fn lemma_entries_map_contains(s: Seq<(KeyModel, InfoModel)>, k: KeyModel)
    ensures
        entries_map(s).contains_key(k) <==> has_entry_key(s, k),
    decreases s.len(),
{
    if s.len() > 0 {
        lemma_entries_map_contains(s.drop_last(), k);
        if s.last().0 == k {
            assert(s[s.len() - 1].0 == k);
        } else {
            if has_entry_key(s, k) {
                let i = choose|i: int| 0 <= i < s.len() && s[i].0 == k;
                assert(s.drop_last()[i] == s[i]);
            }
            if has_entry_key(s.drop_last(), k) {
                let i = choose|i: int| 0 <= i < s.drop_last().len() && s.drop_last()[i].0 == k;
                assert(s[i].0 == k);
            }
        }
    }
}

pub proof fn lemma_entries_map_value(s: Seq<(KeyModel, InfoModel)>, i: int)
    requires
        0 <= i < s.len(),
        forall|j: int| i < j < s.len() ==> s[j].0 != s[i].0,
    ensures
        entries_map(s).contains_key(s[i].0),
        entries_map(s)[s[i].0] == s[i].1,
    decreases s.len(),
{
    if i == s.len() - 1 {
    } else {
        assert(forall|j: int|
            i < j < s.drop_last().len() ==> s.drop_last()[j].0 != s.drop_last()[i].0);
        lemma_entries_map_value(s.drop_last(), i);
        assert(s.last().0 != s[i].0);
    }
}

pub proof fn lemma_drop_key(s: Seq<(KeyModel, InfoModel)>, k: KeyModel)
    ensures
        entries_map(drop_key(s, k)) == entries_map(s).remove(k),
        forall|k2: KeyModel| #[trigger]
            has_entry_key(drop_key(s, k), k2) ==> has_entry_key(s, k2) && k2 != k,
        keys_unique(s) ==> keys_unique(drop_key(s, k)),
    decreases s.len(),
{
    if s.len() == 0 {
        assert(entries_map(drop_key(s, k)) =~= entries_map(s).remove(k));
        assert(forall|k2: KeyModel| !has_entry_key(drop_key(s, k), k2));
    } else {
        let s1 = s.drop_last();
        lemma_drop_key(s1, k);
        assert(forall|i: int| 0 <= i < s1.len() ==> s1[i] == s[i]);
        assert(forall|k2: KeyModel| has_entry_key(s1, k2) ==> has_entry_key(s, k2)) by {
            assert forall|k2: KeyModel| has_entry_key(s1, k2) implies has_entry_key(s, k2) by {
                let i = choose|i: int| 0 <= i < s1.len() && s1[i].0 == k2;
                assert(s[i].0 == k2);
            }
        }
        let e = s.last();
        let rest = drop_key(s1, k);
        if e.0 == k {
            assert(drop_key(s, k) == rest);
            assert(entries_map(s).remove(k) =~= entries_map(s1).remove(k));
            assert forall|k2: KeyModel| has_entry_key(drop_key(s, k), k2) implies has_entry_key(
                s,
                k2,
            ) && k2 != k by {
                assert(has_entry_key(drop_key(s1, k), k2));
                assert(has_entry_key(s1, k2) && k2 != k);
                let i = choose|i: int| 0 <= i < s1.len() && s1[i].0 == k2;
                assert(s[i].0 == k2);
                assert(has_entry_key(s, k2));
            }
            if keys_unique(s) {
                assert(keys_unique(s1));
            }
        } else {
            assert(drop_key(s, k) == rest.push(e));
            assert(entries_map(rest.push(e)) == entries_map(rest.push(e).drop_last()).insert(
                rest.push(e).last().0,
                rest.push(e).last().1,
            ));
            assert(rest.push(e).drop_last() =~= rest);
            assert(entries_map(s).remove(k) =~= entries_map(s1).remove(k).insert(e.0, e.1));
            assert forall|k2: KeyModel| has_entry_key(drop_key(s, k), k2) implies has_entry_key(
                s,
                k2,
            ) && k2 != k by {
                assert(has_entry_key(rest.push(e), k2));
                let i = choose|i: int|
                    0 <= i < rest.push(e).len() && rest.push(e)[i].0 == k2;
                if i < rest.len() {
                    assert(rest.push(e)[i] == rest[i]);
                    assert(rest[i].0 == k2);
                    assert(has_entry_key(rest, k2));
                    assert(has_entry_key(drop_key(s1, k), k2));
                    assert(has_entry_key(s1, k2) && k2 != k);
                    let j = choose|j: int| 0 <= j < s1.len() && s1[j].0 == k2;
                    assert(s[j].0 == k2);
                    assert(has_entry_key(s, k2));
                } else {
                    assert(rest.push(e)[i] == e);
                    assert(k2 == e.0);
                    assert(s[s.len() - 1].0 == k2);
                    assert(has_entry_key(s, k2));
                }
            }
            if keys_unique(s) {
                assert(keys_unique(s1));
                assert(keys_unique(rest));
                assert(!has_entry_key(s1, e.0)) by {
                    if has_entry_key(s1, e.0) {
                        let i = choose|i: int| 0 <= i < s1.len() && s1[i].0 == e.0;
                        assert(s[i] == s1[i]);
                        assert(s[i].0 != s[s.len() - 1].0);
                        assert(false);
                    }
                }
                assert(!has_entry_key(rest, e.0)) by {
                    if has_entry_key(rest, e.0) {
                        assert(has_entry_key(drop_key(s1, k), e.0));
                        assert(has_entry_key(s1, e.0));
                        assert(false);
                    }
                }
                assert(keys_unique(rest.push(e))) by {
                    assert forall|i: int, j: int|
                        0 <= i < j < rest.push(e).len() implies rest.push(e)[i].0 != rest.push(
                        e,
                    )[j].0 by {
                        if j < rest.len() {
                            assert(rest.push(e)[i] == rest[i]);
                            assert(rest.push(e)[j] == rest[j]);
                        } else {
                            assert(rest.push(e)[j] == e);
                            assert(rest.push(e)[i] == rest[i]);
                            if rest[i].0 == e.0 {
                                assert(has_entry_key(rest, e.0));
                                assert(false);
                            }
                        }
                    }
                }
            }
        }
    }
}

pub proof fn lemma_drop_expired(s: Seq<(KeyModel, InfoModel)>, now: u64, max_age: u64)
    requires
        keys_unique(s),
    ensures
        keys_unique(drop_expired(s, now, max_age)),
        forall|k: KeyModel|
            entries_map(drop_expired(s, now, max_age)).contains_key(k) <==> (entries_map(
                s,
            ).contains_key(k) && !expired(entries_map(s)[k].created_at, now, max_age)),
        forall|k: KeyModel|
            #[trigger] entries_map(drop_expired(s, now, max_age)).contains_key(k) ==> entries_map(
                drop_expired(s, now, max_age),
            )[k] == entries_map(s)[k],
        forall|k2: KeyModel|
            has_entry_key(drop_expired(s, now, max_age), k2) ==> has_entry_key(s, k2),
    decreases s.len(),
{
    if s.len() == 0 {
    } else {
        let s1 = s.drop_last();
        assert(forall|i: int| 0 <= i < s1.len() ==> s1[i] == s[i]);
        assert(keys_unique(s1));
        lemma_drop_expired(s1, now, max_age);
        assert(forall|k2: KeyModel| has_entry_key(s1, k2) ==> has_entry_key(s, k2));
        let e = s.last();
        let rest = drop_expired(s1, now, max_age);
        assert(forall|i: int| 0 <= i < s1.len() ==> s1[i].0 != e.0) by {
            assert(forall|i: int| 0 <= i < s1.len() ==> (#[trigger] s[i]).0 != s[s.len() - 1].0);
        }
        lemma_entries_map_contains(s1, e.0);
        assert(!entries_map(s1).contains_key(e.0));
        if expired(e.1.created_at, now, max_age) {
            assert(drop_expired(s, now, max_age) == rest);
            assert(forall|k: KeyModel|
                entries_map(s).contains_key(k) && k != e.0 ==> entries_map(s)[k] == entries_map(
                    s1,
                )[k] && entries_map(s1).contains_key(k));
        } else {
            assert(drop_expired(s, now, max_age) == rest.push(e));
            assert(rest.push(e).drop_last() =~= rest);
            assert(rest.push(e).last() == e);
            assert(entries_map(rest.push(e)) == entries_map(rest).insert(e.0, e.1));
            assert(!has_entry_key(rest, e.0));
            lemma_entries_map_contains(rest, e.0);
            assert(forall|i: int|
                0 <= i < rest.len() ==> rest.push(e)[i] == rest[i] && rest[i].0 != e.0);
            assert(keys_unique(rest.push(e)));
            assert(has_entry_key(s, e.0)) by {
                assert(s[s.len() - 1].0 == e.0);
            }
            assert(forall|k2: KeyModel|
                has_entry_key(rest.push(e), k2) ==> has_entry_key(rest, k2) || k2 == e.0);
        }
    }
}

pub proof fn lemma_entries_map_card(s: Seq<(KeyModel, InfoModel)>)
    requires
        keys_unique(s),
    ensures
        entries_map(s).dom().finite(),
        entries_map(s).dom().len() == s.len(),
    decreases s.len(),
{
    if s.len() == 0 {
        assert(entries_map(s).dom() =~= Set::<KeyModel>::empty());
    } else {
        let s1 = s.drop_last();
        assert(forall|i: int| 0 <= i < s1.len() ==> s1[i] == s[i]);
        assert(keys_unique(s1));
        lemma_entries_map_card(s1);
        let e = s.last();
        assert(forall|i: int| 0 <= i < s1.len() ==> s1[i].0 != e.0) by {
            assert(forall|i: int| 0 <= i < s1.len() ==> (#[trigger] s[i]).0 != s[s.len() - 1].0);
        }
        lemma_entries_map_contains(s1, e.0);
        assert(!entries_map(s1).contains_key(e.0));
        assert(entries_map(s).dom() =~= entries_map(s1).dom().insert(e.0));
    }
}

/// The transaction table. The entry list is kept with pairwise-distinct
/// keys; its abstract value is the map from key to entry.
pub struct TransactionTable {
    entries: Vec<(TransactionKey, TransactionInfo)>,
}

impl View for TransactionTable {
    type V = Map<KeyModel, InfoModel>;

    closed spec fn view(&self) -> Map<KeyModel, InfoModel> {
        entries_map(self.entries.deep_view())
    }
}

impl TransactionTable {
    /// Well-formedness: no key occurs twice.
    pub closed spec fn wf(&self) -> bool {
        keys_unique(self.entries.deep_view())
    }

    /// An empty table.
    pub fn new() -> (t: TransactionTable)
        ensures
            t.wf(),
            t@ == Map::<KeyModel, InfoModel>::empty(),
    {
        let t = TransactionTable { entries: Vec::new() };
        proof {
            assert(t.entries.deep_view() =~= Seq::<(KeyModel, InfoModel)>::empty());
        }
        t
    }

    /// The position of the entry keyed `(call_id, method)`, if any.
    fn position_of(&self, call_id: &str, method: &str) -> (r: Option<usize>)
        ensures
            match r {
                Option::Some(i) => i < self.entries@.len() && self.entries.deep_view()[i as int].0
                    == (call_id@, method@),
                Option::None => !has_entry_key(self.entries.deep_view(), (call_id@, method@)),
            },
    {
        let mut i: usize = 0;
        while i < self.entries.len()
            invariant
                i <= self.entries@.len(),
                forall|j: int|
                    0 <= j < i ==> self.entries.deep_view()[j].0 != (call_id@, method@),
            decreases self.entries@.len() - i,
        {
            if crate::strutil::str_eq(self.entries[i].0.0.as_str(), call_id) && crate::strutil::str_eq(
                self.entries[i].0.1.as_str(),
                method,
            ) {
                proof {
                    assert(self.entries.deep_view()[i as int].0 == (call_id@, method@));
                }
                return Some(i);
            }
            i = i + 1;
        }
        None
    }

    /// Whether the table knows the key `(call_id, method)`.
    pub fn contains_key(&self, call_id: &str, method: &str) -> (r: bool)
        ensures
            r == self@.contains_key((call_id@, method@)),
    {
        proof {
            lemma_entries_map_contains(self.entries.deep_view(), (call_id@, method@));
        }
        match self.position_of(call_id, method) {
            Some(_) => true,
            None => false,
        }
    }

    /// Inserts only if the key is absent; returns whether an insert
    /// happened. Callers use the answer to suppress duplicate-INVITE
    /// forwarding.
    pub fn insert_if_absent(&mut self, call_id: &str, method: &str, info: TransactionInfo) -> (r:
        bool)
        requires
            old(self).wf(),
        ensures
            final(self).wf(),
            r == !old(self)@.contains_key((call_id@, method@)),
            final(self)@ == if r {
                old(self)@.insert((call_id@, method@), info@)
            } else {
                old(self)@
            },
    {
        proof {
            lemma_entries_map_contains(self.entries.deep_view(), (call_id@, method@));
        }
        match self.position_of(call_id, method) {
            Some(_) => false,
            None => {
                let ghost before = self.entries.deep_view();
                self.entries.push(((call_id.to_owned(), method.to_owned()), info));
                proof {
                    assert(self.entries.deep_view() =~= before.push(
                        (((call_id@, method@)), info@),
                    ));
                    assert(self.entries.deep_view().drop_last() =~= before);
                    assert(forall|i: int|
                        0 <= i < before.len() ==> self.entries.deep_view()[i] == before[i]
                            && before[i].0 != (call_id@, method@));
                    assert(keys_unique(self.entries.deep_view()));
                }
                true
            },
        }
    }

    /// The entry for `(call_id, method)`, as a copy; the lock need not be
    /// held while the copy is used.
    pub fn get(&self, call_id: &str, method: &str) -> (r: Option<TransactionInfo>)
        requires
            self.wf(),
        ensures
            match r {
                Option::Some(info) => self@.contains_key((call_id@, method@)) && info@ == self@[
                    (call_id@, method@)
                ],
                Option::None => !self@.contains_key((call_id@, method@)),
            },
    {
        proof {
            lemma_entries_map_contains(self.entries.deep_view(), (call_id@, method@));
        }
        match self.position_of(call_id, method) {
            Some(i) => {
                proof {
                    assert(forall|j: int|
                        i < j < self.entries.deep_view().len()
                            ==> self.entries.deep_view()[j].0 != self.entries.deep_view()[
                            i as int
                        ].0);
                    lemma_entries_map_value(self.entries.deep_view(), i as int);
                }
                Some(self.entries[i].1.duplicate())
            },
            None => None,
        }
    }

    /// Removes the entry for `(call_id, method)`, if present.
    pub fn remove(&mut self, call_id: &str, method: &str)
        requires
            old(self).wf(),
        ensures
            final(self).wf(),
            final(self)@ == old(self)@.remove((call_id@, method@)),
    {
        let ghost k: KeyModel = (call_id@, method@);
        let ghost before = self.entries.deep_view();
        let mut out: Vec<(TransactionKey, TransactionInfo)> = Vec::new();
        proof {
            assert(before.take(0) =~= Seq::<(KeyModel, InfoModel)>::empty());
            assert(out.deep_view() =~= drop_key(before.take(0), k));
        }
        let n = self.entries.len();
        let mut i: usize = 0;
        while i < n
            invariant
                i <= n,
                n == self.entries@.len(),
                k == (call_id@, method@),
                self.entries.deep_view() == before,
                out.deep_view() == drop_key(before.take(i as int), k),
            decreases n - i,
        {
            proof {
                assert(before.take(i as int + 1).drop_last() =~= before.take(i as int));
                assert(before.take(i as int + 1).last() == before[i as int]);
                assert(before[i as int].0 == (
                    self.entries@[i as int].0.0@,
                    self.entries@[i as int].0.1@,
                ));
            }
            let keep = !(crate::strutil::str_eq(self.entries[i].0.0.as_str(), call_id)
                && crate::strutil::str_eq(self.entries[i].0.1.as_str(), method));
            if keep {
                let ghost sofar = out.deep_view();
                let e = &self.entries[i];
                out.push(((e.0.0.clone(), e.0.1.clone()), e.1.duplicate()));
                proof {
                    assert(out.deep_view() =~= sofar.push(before[i as int]));
                    assert(before.take(i as int + 1).last().0 != k);
                    assert(out.deep_view() == drop_key(before.take(i as int + 1), k));
                }
            } else {
                proof {
                    assert(before.take(i as int + 1).last().0 == k);
                    assert(out.deep_view() == drop_key(before.take(i as int + 1), k));
                }
            }
            i = i + 1;
        }
        proof {
            assert(before.take(n as int) =~= before);
            lemma_drop_key(before, k);
        }
        self.entries = out;
    }

    /// Removes every entry whose age has reached `max_age` at `now`; every
    /// younger entry stays, unchanged. An entry stamped later than `now`
    /// (clock skew) is kept.
    pub fn sweep(&mut self, now: u64, max_age: u64)
        requires
            old(self).wf(),
        ensures
            final(self).wf(),
            forall|k: KeyModel|
                final(self)@.contains_key(k) <==> (old(self)@.contains_key(k) && !expired(
                    old(self)@[k].created_at,
                    now,
                    max_age,
                )),
            forall|k: KeyModel|
                #[trigger] final(self)@.contains_key(k) ==> final(self)@[k] == old(self)@[k],
    {
        let ghost before = self.entries.deep_view();
        let mut out: Vec<(TransactionKey, TransactionInfo)> = Vec::new();
        proof {
            assert(before.take(0) =~= Seq::<(KeyModel, InfoModel)>::empty());
            assert(out.deep_view() =~= drop_expired(before.take(0), now, max_age));
        }
        let n = self.entries.len();
        let mut i: usize = 0;
        while i < n
            invariant
                i <= n,
                n == self.entries@.len(),
                self.entries.deep_view() == before,
                out.deep_view() == drop_expired(before.take(i as int), now, max_age),
            decreases n - i,
        {
            proof {
                assert(before.take(i as int + 1).drop_last() =~= before.take(i as int));
                assert(before.take(i as int + 1).last() == before[i as int]);
            }
            let created = self.entries[i].1.created_at;
            let keep = created > now || now - created < max_age;
            if keep {
                let ghost sofar = out.deep_view();
                let e = &self.entries[i];
                out.push(((e.0.0.clone(), e.0.1.clone()), e.1.duplicate()));
                proof {
                    assert(out.deep_view() =~= sofar.push(before[i as int]));
                }
            }
            i = i + 1;
        }
        proof {
            assert(before.take(n as int) =~= before);
            lemma_drop_expired(before, now, max_age);
        }
        self.entries = out;
    }

    /// One pass of the periodic cleanup: removes every entry that has idled
    /// past the fixed maximum age.
    pub fn cleanup_old_transactions(&mut self, now: u64)
        requires
            old(self).wf(),
        ensures
            final(self).wf(),
            forall|k: KeyModel|
                final(self)@.contains_key(k) <==> (old(self)@.contains_key(k) && !expired(
                    old(self)@[k].created_at,
                    now,
                    MAX_TRANSACTION_AGE_SECS,
                )),
            forall|k: KeyModel|
                #[trigger] final(self)@.contains_key(k) ==> final(self)@[k] == old(self)@[k],
    {
        self.sweep(now, MAX_TRANSACTION_AGE_SECS);
    }

    /// How many transactions are live.
    pub fn len(&self) -> (n: usize)
        requires
            self.wf(),
        ensures
            self@.dom().finite(),
            n == self@.dom().len(),
    {
        proof {
            lemma_entries_map_card(self.entries.deep_view());
        }
        self.entries.len()
    }
}

} // verus!
