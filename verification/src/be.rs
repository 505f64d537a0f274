//! The record store: entries under identifiers, with read transactions on
//! the committed state and one write transaction at a time.
//!
//! The store keeps its entries in memory. `dump` hands the committed state
//! out for saving, and `restore` takes a saved state back.
use vstd::prelude::*;
use crate::entry::{views, Entry, EntryView};
use crate::error::BackendError;
use crate::filter::Filter;
use crate::text::{is_lower, lemma_lower, to_lower};

verus! {

/// The state of a record store as contracts see it.
pub ghost struct StoreView {
    pub entries: Seq<EntryView>,
    /// The identifier that the next new entry gets.
    pub next_id: u64,
}

/// The entries of `s` that `filter` selects, in order.
pub open spec fn selected(s: Seq<EntryView>, filter: &Filter) -> Seq<EntryView> {
    s.filter(|e: EntryView| filter.matches(e))
}

/// Whether `filter` selects an entry of `s`.
pub open spec fn any_selected(s: Seq<EntryView>, filter: &Filter) -> bool {
    exists|i: int| 0 <= i < s.len() && filter.matches(#[trigger] s[i])
}

/// The entries `s` under the identifiers `first`, `first + 1`, and so on.
pub open spec fn numbered(s: Seq<EntryView>, first: u64) -> Seq<EntryView> {
    Seq::new(s.len(), |i: int| s[i].with_id(Some((first + i) as u64)))
}

/// The stored entries with `e` in place of each entry of its identifier.
pub open spec fn put(s: Seq<EntryView>, e: EntryView) -> Seq<EntryView> {
    Seq::new(s.len(), |i: int| if s[i].id == e.id { e } else { s[i] })
}

/// The stored entries after each entry of `es` has taken, in order, the
/// place of the entries of its identifier.
pub open spec fn put_all(s: Seq<EntryView>, es: Seq<EntryView>) -> Seq<EntryView>
    decreases es.len(),
{
    if es.len() == 0 {
        s
    } else {
        put(put_all(s, es.drop_last()), es.last())
    }
}

/// Whether an entry is stored under the identifier of `e`.
pub open spec fn is_stored(s: Seq<EntryView>, e: EntryView) -> bool {
    e.id is Some && exists|i: int| 0 <= i < s.len() && (#[trigger] s[i]).id == e.id
}

/// Whether every attribute name of the entry is in lower case.
pub open spec fn lower_names(e: EntryView) -> bool {
    forall|i: int| 0 <= i < e.avas.len() ==> is_lower((#[trigger] e.avas[i]).name)
}

/// Whether every entry of `es` is well formed and has lower-case attribute
/// names.
pub open spec fn normal(es: Seq<EntryView>) -> bool {
    forall|i: int| 0 <= i < es.len() ==> (#[trigger] es[i]).wf() && lower_names(es[i])
}

/// Whether a store can hold `entries` with `next_id` for the next new
/// entry: every entry is well formed and has an identifier below `next_id`
/// that no other entry has, and attribute names in lower case.
pub open spec fn restorable(entries: Seq<EntryView>, next_id: u64) -> bool {
    (StoreView { entries, next_id }).wf()
}

impl StoreView {
    /// The store without entries.
    pub open spec fn empty() -> StoreView {
        StoreView { entries: Seq::empty(), next_id: 0 }
    }

    /// Whether every entry is well formed, has lower-case attribute names,
    /// and has an identifier that no other entry has and that is below the
    /// next one to be given.
    pub open spec fn wf(self) -> bool {
        &&& forall|i: int|
            0 <= i < self.entries.len() ==> {
                &&& (#[trigger] self.entries[i]).wf()
                &&& lower_names(self.entries[i])
                &&& self.entries[i].id is Some
                &&& self.entries[i].id->Some_0 < self.next_id
            }
        &&& distinct_ids(self.entries)
    }

    /// What a request to create `es` gives: an error, or the store with the
    /// new entries behind the others, under new identifiers.
    pub open spec fn created(self, es: Seq<EntryView>) -> Result<StoreView, BackendError> {
        if es.len() == 0 {
            Err(BackendError::EmptyRequest)
        } else if self.next_id + es.len() > u64::MAX {
            Err(BackendError::IdExhausted)
        } else {
            Ok(
                StoreView {
                    entries: self.entries + numbered(es, self.next_id),
                    next_id: (self.next_id + es.len()) as u64,
                },
            )
        }
    }

    /// What a request to store `es` in place of the entries of their
    /// identifiers gives: an error, or the store with them in place.
    pub open spec fn modified(self, es: Seq<EntryView>) -> Result<StoreView, BackendError> {
        if es.len() == 0 {
            Err(BackendError::EmptyRequest)
        } else if exists|i: int| 0 <= i < es.len() && !is_stored(self.entries, #[trigger] es[i]) {
            Err(BackendError::NoSuchEntry)
        } else {
            Ok(StoreView { entries: put_all(self.entries, es), next_id: self.next_id })
        }
    }
}

struct Store {
    entries: Vec<Entry>,
    next_id: u64,
}

impl View for Store {
    type V = StoreView;

    closed spec fn view(&self) -> StoreView {
        StoreView { entries: views(self.entries@), next_id: self.next_id }
    }
}

fn has_lower_names(e: &Entry) -> (r: bool)
    ensures
        r == lower_names(e@),
{
    let mut i: usize = 0;
    while i < e.len()
        invariant
            i <= e@.avas.len(),
            forall|k: int| 0 <= k < i ==> is_lower((#[trigger] e@.avas[k]).name),
        decreases e@.avas.len() - i,
    {
        let name = e.name_at(i);
        let low = to_lower(name.as_str());
        proof {
            lemma_lower(name@);
            if low@ != name@ {
                assert(!is_lower(e@.avas[i as int].name));
            }
        }
        if low != *name {
            return false;
        }
        i += 1;
    }
    true
}

fn same_id(a: Option<u64>, b: Option<u64>) -> (r: bool)
    ensures
        r == (a == b),
{
    match (a, b) {
        (Some(x), Some(y)) => x == y,
        (None, None) => true,
        _ => false,
    }
}

/// A copy of `entries`.
pub fn copy_entries(entries: &Vec<Entry>) -> (r: Vec<Entry>)
    ensures
        views(r@) == views(entries@),
{
    let mut out: Vec<Entry> = Vec::new();
    let mut i: usize = 0;
    while i < entries.len()
        invariant
            i <= entries.len(),
            out.len() == i,
            forall|k: int| 0 <= k < i ==> (#[trigger] out[k])@ == entries[k]@,
        decreases entries.len() - i,
    {
        out.push(entries[i].clone());
        i += 1;
    }
    proof {
        assert(views(out@) =~= views(entries@));
    }
    out
}

impl Clone for Store {
    fn clone(&self) -> (r: Store)
        ensures
            r@ == self@,
    {
        Store { entries: copy_entries(&self.entries), next_id: self.next_id }
    }
}

/// A record store. Its view is its committed state.
pub struct Backend {
    committed: Store,
    working: Store,
}

impl View for Backend {
    type V = StoreView;

    closed spec fn view(&self) -> StoreView {
        self.committed@
    }
}

/// A write transaction on a record store. Its view is the state that it
/// works on. While it lives nothing else reaches the store; dropping it
/// without a commit leaves the committed state of the store as it was.
pub struct BackendWriteTransaction<'a> {
    pub be: &'a mut Backend,
}

impl<'a> View for BackendWriteTransaction<'a> {
    type V = StoreView;

    open spec fn view(&self) -> StoreView {
        self.be.working()
    }
}

impl Backend {
    /// The state that a write transaction on this store works on.
    pub closed spec fn working(&self) -> StoreView {
        self.working@
    }

    /// An empty store.
    pub fn new() -> (r: Backend)
        ensures
            r@ == StoreView::empty(),
            r@.wf(),
    {
        let committed = Store { entries: Vec::new(), next_id: 0 };
        let working = Store { entries: Vec::new(), next_id: 0 };
        proof {
            assert(views(committed.entries@) =~= Seq::<EntryView>::empty());
        }
        Backend { committed, working }
    }

    /// The store that holds `entries` and gives `next_id` to the next new
    /// entry, as a store that was saved gives them back. There is none
    /// where an entry is not well formed, has no identifier or one that is
    /// not below `next_id`, where two entries share an identifier, or where
    /// an attribute name is not in lower case.
    pub fn restore(entries: Vec<Entry>, next_id: u64) -> (r: Option<Backend>)
        ensures
            r is Some <==> restorable(views(entries@), next_id),
            r matches Some(be) ==> be@ == (StoreView { entries: views(entries@), next_id })
                && be@.wf(),
    {
        let mut i: usize = 0;
        while i < entries.len()
            invariant
                i <= entries.len(),
                restorable(views(entries@).take(i as int), next_id),
            decreases entries.len() - i,
        {
            let ghost all = views(entries@);
            let id = match entries[i].get_id() {
                Some(id) => id,
                None => {
                    assert(!restorable(all, next_id)) by {
                        assert(all[i as int].id is None);
                    }
                    return None;
                },
            };
            if id >= next_id || !has_lower_names(&entries[i]) || !entries[i].is_well_formed() {
                assert(!restorable(all, next_id)) by {
                    assert(all[i as int] == entries[i as int]@);
                }
                return None;
            }
            let mut j: usize = 0;
            while j < i
                invariant
                    j <= i,
                    i < entries.len(),
                    all == views(entries@),
                    entries[i as int]@.id == Some(id),
                    forall|k: int| 0 <= k < j ==> (#[trigger] all[k]).id != Some(id),
                decreases i - j,
            {
                if same_id(entries[j].get_id(), Some(id)) {
                    assert(!restorable(all, next_id)) by {
                        assert(all[j as int].id == all[i as int].id);
                    }
                    return None;
                }
                j += 1;
            }
            proof {
                let head = all.take(i + 1);
                assert forall|a: int, b: int| 0 <= a < b < head.len() implies (#[trigger] head[a]).id
                    != (#[trigger] head[b]).id by {
                    if b < i {
                        assert(all.take(i as int)[a] == head[a] && all.take(i as int)[b] == head[b]);
                    }
                }
                assert forall|k: int| 0 <= k < head.len() implies (#[trigger] head[k]).wf()
                    && head[k].id is Some && head[k].id->Some_0 < next_id && lower_names(
                    head[k],
                ) by {
                    if k < i {
                        assert(all.take(i as int)[k] == head[k]);
                    }
                }
            }
            i += 1;
        }
        proof {
            assert(views(entries@).take(entries.len() as int) =~= views(entries@));
        }
        let working = Store { entries: Vec::new(), next_id: 0 };
        Some(Backend { committed: Store { entries, next_id }, working })
    }

    /// The committed entries and the identifier that the next new entry
    /// gets, for saving.
    pub fn dump(&self) -> (r: (Vec<Entry>, u64))
        ensures
            views(r.0@) == self@.entries,
            r.1 == self@.next_id,
    {
        (copy_entries(&self.committed.entries), self.committed.next_id)
    }

    /// Opens the write transaction. It works on a copy of the committed
    /// state.
    pub fn write(&mut self) -> (t: BackendWriteTransaction<'_>)
        ensures
            t@ == old(self)@,
            t.be@ == old(self)@,
            *final(t.be) == *final(self),
    {
        self.working = self.committed.clone();
        BackendWriteTransaction { be: self }
    }
}

impl<'a> BackendWriteTransaction<'a> {
    /// Stores `entries` as new entries, under new identifiers.
    pub fn create(&mut self, entries: &Vec<Entry>) -> (r: Result<(), BackendError>)
        ensures
            match old(self)@.created(views(entries@)) {
                Ok(s) => r is Ok && final(self)@ == s,
                Err(e) => r == Err::<(), BackendError>(e) && final(self)@ == old(self)@,
            },
            old(self)@.wf() && normal(views(entries@)) ==> final(self)@.wf(),
            final(self).be@ == old(self).be@,
            *final(final(self).be) == *final(old(self).be),
    {
        proof {
            if self@.wf() && normal(views(entries@)) {
                lemma_store_wf(self@, views(entries@));
            }
        }
        if entries.len() == 0 {
            return Err(BackendError::EmptyRequest);
        }
        let room = u64::MAX - self.be.working.next_id;
        if entries.len() as u64 > room {
            return Err(BackendError::IdExhausted);
        }
        let first = self.be.working.next_id;
        let ghost before = self@.entries;
        let mut i: usize = 0;
        while i < entries.len()
            invariant
                i <= entries.len(),
                first + entries.len() <= u64::MAX,
                self.be.working.next_id == first,
                self.be@ == old(self).be@,
                *final(self.be) == *final(old(self).be),
                views(self.be.working.entries@) == before + numbered(
                    views(entries@).take(i as int),
                    first,
                ),
            decreases entries.len() - i,
        {
            let e = entries[i].clone().with_id(Some(first + i as u64));
            proof {
                crate::entry::lemma_views_push(self.be.working.entries@, e);
                assert((before + numbered(views(entries@).take(i as int), first)).push(e@) =~= before
                    + numbered(views(entries@).take(i + 1), first));
            }
            self.be.working.entries.push(e);
            i += 1;
        }
        proof {
            assert(views(entries@).take(entries.len() as int) =~= views(entries@));
        }
        self.be.working.next_id = first + entries.len() as u64;
        Ok(())
    }

    /// The identifier that the next new entry gets.
    pub fn next_id(&self) -> (r: u64)
        ensures
            r == self@.next_id,
    {
        self.be.working.next_id
    }

    /// Whether an entry is stored under identifier `id`.
    fn holds_id(&self, id: Option<u64>) -> (r: bool)
        ensures
            r == (id is Some && exists|i: int|
                0 <= i < self@.entries.len() && (#[trigger] self@.entries[i]).id == id),
    {
        if id.is_none() {
            return false;
        }
        let mut i: usize = 0;
        while i < self.be.working.entries.len()
            invariant
                i <= self.be.working.entries.len(),
                id is Some,
                forall|k: int| 0 <= k < i ==> (#[trigger] self@.entries[k]).id != id,
            decreases self.be.working.entries.len() - i,
        {
            if same_id(self.be.working.entries[i].get_id(), id) {
                assert(self@.entries[i as int].id == id);
                return true;
            }
            i += 1;
        }
        false
    }

    /// Stores each entry of `entries` in place of the stored entry of its
    /// identifier. Nothing is stored where the request is empty or one of
    /// the entries is not in the store.
    pub fn modify(&mut self, entries: &Vec<Entry>) -> (r: Result<(), BackendError>)
        ensures
            match old(self)@.modified(views(entries@)) {
                Ok(s) => r is Ok && final(self)@ == s,
                Err(e) => r == Err::<(), BackendError>(e) && final(self)@ == old(self)@,
            },
            old(self)@.wf() && normal(views(entries@)) ==> final(self)@.wf(),
            final(self).be@ == old(self).be@,
            *final(final(self).be) == *final(old(self).be),
    {
        proof {
            if self@.wf() && normal(views(entries@)) {
                lemma_store_wf(self@, views(entries@));
            }
        }
        if entries.len() == 0 {
            return Err(BackendError::EmptyRequest);
        }
        let mut c: usize = 0;
        while c < entries.len()
            invariant
                c <= entries.len(),
                self == old(self),
                forall|k: int|
                    0 <= k < c ==> is_stored(self@.entries, #[trigger] views(entries@)[k]),
            decreases entries.len() - c,
        {
            if !self.holds_id(entries[c].get_id()) {
                assert(!is_stored(self@.entries, views(entries@)[c as int]));
                return Err(BackendError::NoSuchEntry);
            }
            c += 1;
        }
        let ghost before = self@.entries;
        let mut i: usize = 0;
        while i < entries.len()
            invariant
                i <= entries.len(),
                self.be.working.next_id == old(self).be.working.next_id,
                self.be@ == old(self).be@,
                *final(self.be) == *final(old(self).be),
                views(self.be.working.entries@) == put_all(before, views(entries@).take(i as int)),
            decreases entries.len() - i,
        {
            let ghost start = views(self.be.working.entries@);
            let ghost e = entries[i as int]@;
            let id = entries[i].get_id();
            let mut j: usize = 0;
            while j < self.be.working.entries.len()
                invariant
                    i < entries.len(),
                    e == entries[i as int]@,
                    id == e.id,
                    j <= self.be.working.entries.len(),
                    self.be.working.entries.len() == start.len(),
                    self.be.working.next_id == old(self).be.working.next_id,
                    self.be@ == old(self).be@,
                    *final(self.be) == *final(old(self).be),
                    forall|k: int|
                        0 <= k < start.len() ==> (#[trigger] self.be.working.entries[k])@ == if k < j
                            && start[k].id == e.id {
                            e
                        } else {
                            start[k]
                        },
                decreases self.be.working.entries.len() - j,
            {
                if same_id(self.be.working.entries[j].get_id(), id) {
                    let fresh = entries[i].clone();
                    self.be.working.entries.set(j, fresh);
                }
                j += 1;
            }
            proof {
                assert(views(self.be.working.entries@) =~= put(start, e));
                assert(views(entries@).take(i + 1).drop_last() =~= views(entries@).take(i as int));
            }
            i += 1;
        }
        proof {
            assert(views(entries@).take(entries.len() as int) =~= views(entries@));
        }
        Ok(())
    }

    /// Makes the state of this transaction the committed state of the
    /// store.
    pub fn commit(self)
        ensures
            final(self.be)@ == self@,
    {
        let BackendWriteTransaction { be } = self;
        be.committed = be.working.clone();
    }
}


/// What a read transaction and a write transaction share: a state of the
/// store that can be searched.
pub trait BackendReadTransaction {
    /// The entries that this transaction sees.
    spec fn entries(&self) -> Seq<EntryView>;

    /// The entries that this transaction sees, as they are stored.
    fn get_entries(&self) -> (r: &Vec<Entry>)
        ensures
            views(r@) == self.entries(),
    ;

    /// The entries that `filt` selects, in the order in which they are
    /// stored.
    fn search(&self, filt: &Filter) -> (r: Vec<Entry>)
        ensures
            views(r@) == selected(self.entries(), filt),
    {
        let all = self.get_entries();
        let ghost pred = |e: EntryView| filt.matches(e);
        let mut out: Vec<Entry> = Vec::new();
        let mut i: usize = 0;
        proof {
            reveal(Seq::filter);
            assert(views(all@).take(0) =~= Seq::<EntryView>::empty());
            assert(views(out@) =~= Seq::<EntryView>::empty());
        }
        while i < all.len()
            invariant
                i <= all.len(),
                pred == (|e: EntryView| filt.matches(e)),
                views(out@) == views(all@).take(i as int).filter(pred),
            decreases all.len() - i,
        {
            proof {
                let s = views(all@);
                s.lemma_take_succ_push(i as int);
                s.take(i as int).lemma_filter_push(s[i as int], pred);
            }
            if filt.entry_match(&all[i]) {
                let e = all[i].clone();
                proof {
                    crate::entry::lemma_views_push(out@, e);
                }
                out.push(e);
            }
            i += 1;
        }
        proof {
            assert(views(all@).take(all.len() as int) =~= views(all@));
        }
        out
    }

    /// Whether `filt` selects any entry.
    fn exists_entry(&self, filt: &Filter) -> (r: bool)
        ensures
            r == any_selected(self.entries(), filt),
    {
        let all = self.get_entries();
        let mut i: usize = 0;
        while i < all.len()
            invariant
                i <= all.len(),
                views(all@) == self.entries(),
                forall|k: int| 0 <= k < i ==> !filt.matches(#[trigger] self.entries()[k]),
            decreases all.len() - i,
        {
            if filt.entry_match(&all[i]) {
                assert(filt.matches(self.entries()[i as int]));
                return true;
            }
            i += 1;
        }
        false
    }
}

/// A read transaction: the committed state of the store as it was when the
/// transaction was opened.
pub struct BackendTransaction {
    entries: Vec<Entry>,
}

impl View for BackendTransaction {
    type V = Seq<EntryView>;

    closed spec fn view(&self) -> Seq<EntryView> {
        views(self.entries@)
    }
}

impl BackendReadTransaction for BackendTransaction {
    open spec fn entries(&self) -> Seq<EntryView> {
        self@
    }

    fn get_entries(&self) -> (r: &Vec<Entry>) {
        &self.entries
    }
}

impl<'a> BackendReadTransaction for BackendWriteTransaction<'a> {
    open spec fn entries(&self) -> Seq<EntryView> {
        self@.entries
    }

    fn get_entries(&self) -> (r: &Vec<Entry>) {
        &self.be.working.entries
    }
}

impl Backend {
    /// Opens a read transaction on the committed state.
    pub fn read(&self) -> (t: BackendTransaction)
        ensures
            t@ == self@.entries,
    {
        BackendTransaction { entries: copy_entries(&self.committed.entries) }
    }
}


/// Whether no two entries of `s` share an identifier.
pub open spec fn distinct_ids(s: Seq<EntryView>) -> bool {
    forall|i: int, j: int| 0 <= i < j < s.len() ==> (#[trigger] s[i]).id != (#[trigger] s[j]).id
}

/// What storing `es` in place does to each stored entry: an entry keeps its
/// place and its identifier; it is replaced by the entry of `es` that has
/// its identifier, and stays as it is where there is none. The entries of
/// `es` that share an identifier must be the same.
pub proof fn lemma_put_all(s: Seq<EntryView>, es: Seq<EntryView>)
    requires
        forall|a: int, b: int|
            0 <= a < es.len() && 0 <= b < es.len() && (#[trigger] es[a]).id == (#[trigger] es[b]).id
                ==> es[a] == es[b],
    ensures
        put_all(s, es).len() == s.len(),
        forall|j: int| 0 <= j < s.len() ==> (#[trigger] put_all(s, es)[j]).id == s[j].id,
        forall|j: int, i: int|
            0 <= j < s.len() && 0 <= i < es.len() && (#[trigger] es[i]).id == (#[trigger] s[j]).id
                ==> put_all(s, es)[j] == es[i],
        forall|j: int|
            0 <= j < s.len() && (forall|i: int| 0 <= i < es.len() ==> (#[trigger] es[i]).id != s[j].id)
                ==> #[trigger] put_all(s, es)[j] == s[j],
    decreases es.len(),
{
    if es.len() > 0 {
        let front = es.drop_last();
        let last = es.last();
        assert forall|a: int, b: int|
            0 <= a < front.len() && 0 <= b < front.len() && (#[trigger] front[a]).id == (
            #[trigger] front[b]).id implies front[a] == front[b] by {
            assert(front[a] == es[a] && front[b] == es[b]);
        }
        lemma_put_all(s, front);
        let p = put_all(s, front);
        let out = put_all(s, es);
        assert(out == put(p, last));
        assert forall|j: int, i: int|
            0 <= j < s.len() && 0 <= i < es.len() && (#[trigger] es[i]).id == (
            #[trigger] s[j]).id implies out[j] == es[i] by {
            assert(p[j].id == s[j].id);
            assert(es[es.len() - 1] == last);
            if i < front.len() {
                assert(front[i] == es[i]);
                assert(p[j] == front[i]);
            }
        }
        assert forall|j: int|
            0 <= j < s.len() && (forall|i: int|
                0 <= i < es.len() ==> (#[trigger] es[i]).id != s[j].id) implies #[trigger] out[j]
            == s[j] by {
            assert(p[j].id == s[j].id);
            assert(es[es.len() - 1] == last);
            assert forall|i: int| 0 <= i < front.len() implies (#[trigger] front[i]).id
                != s[j].id by {
                assert(front[i] == es[i]);
            }
        }
        assert forall|j: int| 0 <= j < s.len() implies (#[trigger] out[j]).id == s[j].id by {
            assert(p[j].id == s[j].id);
        }
    }
}

/// Storing well-formed entries with lower-case attribute names leaves the
/// store well formed.
pub proof fn lemma_store_wf(s: StoreView, es: Seq<EntryView>)
    requires
        s.wf(),
        normal(es),
    ensures
        s.created(es) matches Ok(t) ==> t.wf(),
        s.modified(es) matches Ok(t) ==> t.wf(),
{
    if s.created(es) is Ok {
        let t = s.created(es)->Ok_0;
        assert forall|i: int| 0 <= i < t.entries.len() implies (#[trigger] t.entries[i]).wf()
            && lower_names(t.entries[i]) && t.entries[i].id is Some && t.entries[i].id->Some_0
            < t.next_id by {
            if i < s.entries.len() {
                assert(t.entries[i] == s.entries[i]);
            } else {
                let k = i - s.entries.len();
                assert(t.entries[i] == es[k].with_id(Some((s.next_id + k) as u64)));
                assert(es[k].wf() && lower_names(es[k]));
            }
        }
        assert forall|i: int, j: int| 0 <= i < j < t.entries.len() implies (
        #[trigger] t.entries[i]).id != (#[trigger] t.entries[j]).id by {
            if j < s.entries.len() {
                assert(t.entries[i] == s.entries[i] && t.entries[j] == s.entries[j]);
            } else if i < s.entries.len() {
                assert(t.entries[i] == s.entries[i]);
            }
        }
    }
    if s.modified(es) is Ok {
        let t = s.modified(es)->Ok_0;
        lemma_put_all_ids(s.entries, es);
        assert forall|i: int| 0 <= i < t.entries.len() implies (#[trigger] t.entries[i]).wf()
            && lower_names(t.entries[i]) && t.entries[i].id is Some && t.entries[i].id->Some_0
            < t.next_id by {
            assert(t.entries[i].id == s.entries[i].id);
            if es.contains(t.entries[i]) {
                let q = choose|q: int| 0 <= q < es.len() && es[q] == t.entries[i];
                assert(es[q].wf() && lower_names(es[q]));
            }
        }
        assert forall|i: int, j: int| 0 <= i < j < t.entries.len() implies (
        #[trigger] t.entries[i]).id != (#[trigger] t.entries[j]).id by {
            assert(t.entries[i].id == s.entries[i].id && t.entries[j].id == s.entries[j].id);
        }
    }
}

/// Storing entries in place moves no entry and changes no identifier, and
/// leaves an entry as it is where none of the new entries has its
/// identifier.
pub proof fn lemma_put_all_ids(s: Seq<EntryView>, es: Seq<EntryView>)
    ensures
        put_all(s, es).len() == s.len(),
        forall|j: int| 0 <= j < s.len() ==> (#[trigger] put_all(s, es)[j]).id == s[j].id,
        forall|j: int|
            0 <= j < s.len() && (forall|i: int| 0 <= i < es.len() ==> (#[trigger] es[i]).id != s[j].id)
                ==> #[trigger] put_all(s, es)[j] == s[j],
        forall|j: int|
            0 <= j < s.len() ==> #[trigger] put_all(s, es)[j] == s[j] || es.contains(
                put_all(s, es)[j],
            ),
    decreases es.len(),
{
    if es.len() > 0 {
        let front = es.drop_last();
        let last = es.last();
        lemma_put_all_ids(s, front);
        assert forall|j: int| 0 <= j < s.len() implies #[trigger] put_all(s, es)[j] == s[j]
            || es.contains(put_all(s, es)[j]) by {
            let p = put_all(s, front);
            assert(put_all(s, es) == put(p, last));
            assert(es[es.len() - 1] == last);
            if front.contains(p[j]) {
                let q = choose|q: int| 0 <= q < front.len() && front[q] == p[j];
                assert(es[q] == p[j]);
            }
        }
        let p = put_all(s, front);
        let out = put_all(s, es);
        assert(out == put(p, last));
        assert forall|j: int| 0 <= j < s.len() implies (#[trigger] out[j]).id == s[j].id by {
            assert(p[j].id == s[j].id);
        }
        assert forall|j: int|
            0 <= j < s.len() && (forall|i: int|
                0 <= i < es.len() ==> (#[trigger] es[i]).id != s[j].id) implies #[trigger] out[j]
            == s[j] by {
            assert(p[j].id == s[j].id);
            assert(es[es.len() - 1] == last);
            assert forall|i: int| 0 <= i < front.len() implies (#[trigger] front[i]).id
                != s[j].id by {
                assert(front[i] == es[i]);
            }
        }
    }
}

/// What a filter selects are the stored entries that it matches: each
/// selected entry is stored and matched, and each stored entry that is
/// matched is selected.
pub proof fn lemma_selected(s: Seq<EntryView>, f: &Filter)
    ensures
        forall|i: int|
            0 <= i < selected(s, f).len() ==> f.matches(#[trigger] selected(s, f)[i]) && s.contains(
                selected(s, f)[i],
            ),
        forall|j: int|
            0 <= j < s.len() && f.matches(#[trigger] s[j]) ==> selected(s, f).contains(s[j]),
{
    broadcast use vstd::seq_lib::group_filter_ensures;

    let pred = |e: EntryView| f.matches(e);
    let out = s.filter(pred);
    assert forall|i: int| 0 <= i < out.len() implies f.matches(#[trigger] out[i]) && s.contains(
        out[i],
    ) by {
        assert(pred(out[i]));
        assert(out.contains(out[i]));
        s.lemma_filter_contains_rev(pred, out[i]);
    }
    assert forall|j: int| 0 <= j < s.len() && f.matches(#[trigger] s[j]) implies out.contains(
        s[j],
    ) by {
        assert(pred(s[j]));
    }
}

} // verus!
