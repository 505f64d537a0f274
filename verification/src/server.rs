//! The query server: read and write transactions over a record store and a
//! schema store, with the plugin pipeline inside every write operation.
use vstd::prelude::*;
use crate::be::{
    any_selected, copy_entries, selected, Backend, BackendReadTransaction, BackendTransaction,
    BackendWriteTransaction, StoreView,
};
use crate::constants::{anonymous, anonymous_v1, system_info, system_info_v1};
use crate::entry::{added_all, views, AvaView, Entry, EntryView};
use crate::error::{BackendError, OperationError, SchemaError};
use crate::event::{
    CreateEvent, ExistsEvent, ModifyEvent, OpResult, SearchEvent, SearchResult,
};
use crate::filter::{covers, Filter};
use crate::modify::{applied_all, Modify, ModifyList};
use crate::plugins::session::{standard, standard_plugins, StandardPlugins};
use crate::plugins::Pipeline;
use crate::schema::{
    bootstrapped, first_fault, lemma_first_fault, lemma_normalised_all, normalised_all, Schema,
    SchemaInner, SchemaTransaction, SchemaView, SchemaWriteTransaction,
};

verus! {

/// The committed state of a server.
pub ghost struct ServerView {
    pub store: StoreView,
    pub schema: SchemaView,
}

/// A server: a record store, a schema store and the pipeline of plugins
/// that it was made with.
pub struct QueryServer<P: Pipeline> {
    be: Backend,
    schema: Schema,
    plugins: P,
}

impl<P: Pipeline> View for QueryServer<P> {
    type V = ServerView;

    closed spec fn view(&self) -> ServerView {
        ServerView { store: self.be@, schema: self.schema@ }
    }
}

/// What a read transaction and a write transaction share: searches on the
/// state that the transaction sees. No plugin runs on a read.
pub trait QueryServerReadTransaction {
    type BackendTransactionType: BackendReadTransaction;

    /// The entries that this transaction sees.
    spec fn seen(&self) -> Seq<EntryView>;

    /// The schema that this transaction sees.
    spec fn schema_seen(&self) -> SchemaView;

    /// The transaction of the record store that this transaction reads.
    fn get_be_txn(&self) -> (r: &Self::BackendTransactionType)
        ensures
            r.entries() == self.seen(),
    ;

    /// The definitions of the schema that this transaction reads.
    fn get_schema(&self) -> (r: &SchemaInner)
        ensures
            r@ == self.schema_seen(),
    ;

    /// The entries that the filter of `se` selects. A filter that refers to
    /// an attribute which the schema does not define is refused.
    fn search(&self, se: &SearchEvent) -> (r: Result<Vec<Entry>, OperationError>)
        ensures
            match r {
                Ok(found) => self.schema_seen().valid_filter(&se.filter) && views(found@)
                    == selected(self.seen(), &se.filter),
                Err(e) => !self.schema_seen().valid_filter(&se.filter) && e
                    == OperationError::SchemaViolation,
            },
    {
        if !self.get_schema().validate_filter(&se.filter) {
            return Err(OperationError::SchemaViolation);
        }
        Ok(self.get_be_txn().search(&se.filter))
    }

    /// Whether the filter of `ee` selects any entry. A filter that refers
    /// to an attribute which the schema does not define is refused.
    fn exists_entry(&self, ee: &ExistsEvent) -> (r: Result<bool, OperationError>)
        ensures
            match r {
                Ok(found) => self.schema_seen().valid_filter(&ee.filter) && found == any_selected(
                    self.seen(),
                    &ee.filter,
                ),
                Err(e) => !self.schema_seen().valid_filter(&ee.filter) && e
                    == OperationError::SchemaViolation,
            },
    {
        if !self.get_schema().validate_filter(&ee.filter) {
            return Err(OperationError::SchemaViolation);
        }
        Ok(self.get_be_txn().exists_entry(&ee.filter))
    }

    /// Whether `filter` selects any entry, asked by the server itself.
    fn internal_exists(&self, filter: Filter) -> (r: Result<bool, OperationError>)
        ensures
            match r {
                Ok(found) => self.schema_seen().valid_filter(&filter) && found == any_selected(
                    self.seen(),
                    &filter,
                ),
                Err(e) => !self.schema_seen().valid_filter(&filter) && e
                    == OperationError::SchemaViolation,
            },
    {
        let ee = ExistsEvent::new_internal(filter);
        self.exists_entry(&ee)
    }

    /// The entries that `filter` selects, asked by the server itself.
    fn internal_search(&self, filter: Filter) -> (r: Result<Vec<Entry>, OperationError>)
        ensures
            match r {
                Ok(found) => self.schema_seen().valid_filter(&filter) && views(found@) == selected(
                    self.seen(),
                    &filter,
                ),
                Err(e) => !self.schema_seen().valid_filter(&filter) && e
                    == OperationError::SchemaViolation,
            },
    {
        let se = SearchEvent::new_internal(filter);
        self.search(&se)
    }
}

/// A read transaction of the server: the committed state as it was when
/// the transaction was opened.
pub struct QueryServerTransaction {
    be_txn: BackendTransaction,
    schema: SchemaTransaction,
}

impl View for QueryServerTransaction {
    type V = ServerViewRead;

    closed spec fn view(&self) -> ServerViewRead {
        ServerViewRead { entries: self.be_txn@, schema: self.schema@ }
    }
}

/// What a read transaction sees.
pub ghost struct ServerViewRead {
    pub entries: Seq<EntryView>,
    pub schema: SchemaView,
}

impl QueryServerReadTransaction for QueryServerTransaction {
    type BackendTransactionType = BackendTransaction;

    open spec fn seen(&self) -> Seq<EntryView> {
        self@.entries
    }

    open spec fn schema_seen(&self) -> SchemaView {
        self@.schema
    }

    fn get_be_txn(&self) -> (r: &BackendTransaction) {
        &self.be_txn
    }

    fn get_schema(&self) -> (r: &SchemaInner) {
        self.schema.get_inner()
    }
}

/// What a write transaction keeps beside its two stores.
pub struct WriteState {
    curtime: u64,
    touched: Vec<Option<u64>>,
}

/// The state of a write transaction as contracts see it.
pub ghost struct WriteView {
    /// The record store as the transaction has left it so far.
    pub store: StoreView,
    /// The schema as the transaction has left it so far.
    pub schema: SchemaView,
    /// The identifiers of the entries that the transaction has written.
    pub touched: Seq<Option<u64>>,
    /// The time of the transaction, in seconds since the epoch.
    pub now: u64,
}

impl WriteState {
    /// The time of the transaction.
    pub closed spec fn now(&self) -> u64 {
        self.curtime
    }

    /// The identifiers of the entries that the transaction has written.
    pub closed spec fn touched(&self) -> Seq<Option<u64>> {
        self.touched@
    }
}

/// A write transaction of the server. While it lives the server cannot be
/// reached otherwise; dropping it without a commit leaves the committed
/// state of the server as it was.
pub struct QueryServerWriteTransaction<'a, P: Pipeline> {
    pub be_txn: BackendWriteTransaction<'a>,
    pub schema: SchemaWriteTransaction<'a>,
    pub plugins: &'a P,
    pub state: WriteState,
}

impl<'a, P: Pipeline> View for QueryServerWriteTransaction<'a, P> {
    type V = WriteView;

    open spec fn view(&self) -> WriteView {
        WriteView {
            store: self.be_txn@,
            schema: self.schema@,
            touched: self.state.touched(),
            now: self.state.now(),
        }
    }
}

impl<'a, P: Pipeline> QueryServerReadTransaction for QueryServerWriteTransaction<'a, P> {
    type BackendTransactionType = BackendWriteTransaction<'a>;

    open spec fn seen(&self) -> Seq<EntryView> {
        self@.store.entries
    }

    open spec fn schema_seen(&self) -> SchemaView {
        self@.schema
    }

    fn get_be_txn(&self) -> (r: &BackendWriteTransaction<'a>) {
        &self.be_txn
    }

    fn get_schema(&self) -> (r: &SchemaInner) {
        self.schema.get_inner()
    }
}

impl<P: Pipeline> QueryServer<P> {
    /// The hooks that run inside the write operations of this server.
    pub closed spec fn hooks(&self) -> P {
        self.plugins
    }

    /// A server over `be` and `schema` that runs `plugins`.
    pub fn new(be: Backend, schema: Schema, plugins: P) -> (r: QueryServer<P>)
        ensures
            r@ == (ServerView { store: be@, schema: schema@ }),
            r.hooks() == plugins,
    {
        QueryServer { be, schema, plugins }
    }

    /// The committed entries and the identifier that the next new entry
    /// gets, for saving.
    pub fn dump(&self) -> (r: (Vec<Entry>, u64))
        ensures
            views(r.0@) == self@.store.entries,
            r.1 == self@.store.next_id,
    {
        self.be.dump()
    }

    /// Opens a read transaction on the committed state.
    pub fn read(&self) -> (t: QueryServerTransaction)
        ensures
            t@ == (ServerViewRead { entries: self@.store.entries, schema: self@.schema }),
    {
        QueryServerTransaction { be_txn: self.be.read(), schema: self.schema.read() }
    }

    /// Opens the write transaction, at time `curtime` in seconds since the
    /// epoch. Every rule of the transaction that depends on time goes by
    /// this one value.
    pub fn write(&mut self, curtime: u64) -> (t: QueryServerWriteTransaction<'_, P>)
        ensures
            t@ == (WriteView {
                store: old(self)@.store,
                schema: old(self)@.schema,
                touched: Seq::empty(),
                now: curtime,
            }),
            t.be_txn.be@ == old(self)@.store,
            t.schema.schema@ == old(self)@.schema,
            *t.plugins == old(self).hooks(),
            final(self)@ == (ServerView {
                store: final(t.be_txn.be)@,
                schema: final(t.schema.schema)@,
            }),
            final(self).hooks() == old(self).hooks(),
    {
        let be_txn = self.be.write();
        let schema = self.schema.write();
        QueryServerWriteTransaction {
            be_txn,
            schema,
            plugins: &self.plugins,
            state: WriteState { curtime, touched: Vec::new() },
        }
    }
}


/// The error of the server for an error of the record store.
pub open spec fn store_error(e: BackendError) -> OperationError {
    match e {
        BackendError::EmptyRequest => OperationError::EmptyRequest,
        _ => OperationError::Backend,
    }
}

/// The identifiers of `es`, in order.
pub open spec fn ids_of(es: Seq<EntryView>) -> Seq<Option<u64>> {
    Seq::new(es.len(), |i: int| es[i].id)
}

/// The identifiers `first`, `first + 1`, and so on, `n` of them.
pub open spec fn ids_from(first: u64, n: nat) -> Seq<Option<u64>> {
    Seq::new(n, |i: int| Some((first + i) as u64))
}

impl WriteView {
    /// What a create of the candidates `cand` gives: the plugins run, the
    /// schema checks what they leave, and the record store takes the normal
    /// forms as new entries. The first step that fails gives the error, and
    /// nothing is stored.
    pub open spec fn created<P: Pipeline>(
        self,
        hooks: P,
        cand: Seq<EntryView>,
        internal: bool,
    ) -> Result<WriteView, OperationError> {
        match hooks.created(self.store.entries, cand, internal, self.now) {
            None => Err(OperationError::Plugin),
            Some(c) => if first_fault(self.schema, c) is Some {
                Err(OperationError::SchemaViolation)
            } else {
                match self.store.created(normalised_all(c)) {
                    Err(e) => Err(store_error(e)),
                    Ok(s) => Ok(
                        WriteView {
                            store: s,
                            schema: self.schema,
                            touched: self.touched + ids_from(self.store.next_id, c.len()),
                            now: self.now,
                        },
                    ),
                }
            },
        }
    }

    /// What a modify gives that puts the candidates `cand` in place of the
    /// entries `pre`: the plugins run, the schema checks what they leave,
    /// and the record store takes the normal forms in place of the entries
    /// of their identifiers. The first step that fails gives the error, and
    /// nothing is stored.
    pub open spec fn replaced<P: Pipeline>(
        self,
        hooks: P,
        pre: Seq<EntryView>,
        cand: Seq<EntryView>,
        internal: bool,
    ) -> Result<WriteView, OperationError> {
        match hooks.modified(self.store.entries, pre, cand, internal, self.now) {
            None => Err(OperationError::Plugin),
            Some(c) => if first_fault(self.schema, c) is Some {
                Err(OperationError::SchemaViolation)
            } else {
                match self.store.modified(normalised_all(c)) {
                    Err(e) => Err(store_error(e)),
                    Ok(s) => Ok(
                        WriteView {
                            store: s,
                            schema: self.schema,
                            touched: self.touched + ids_of(c),
                            now: self.now,
                        },
                    ),
                }
            },
        }
    }

    /// What the modify `me` gives: its filter must refer to attributes of
    /// the schema only; the entries that it selects are the targets, and
    /// the candidates are the targets after the changes of its list.
    pub open spec fn modified<P: Pipeline>(self, hooks: P, me: &ModifyEvent) -> Result<
        WriteView,
        OperationError,
    > {
        if !self.schema.valid_filter(&me.filter) {
            Err(OperationError::SchemaViolation)
        } else {
            let pre = selected(self.store.entries, &me.filter);
            self.replaced(
                hooks,
                pre,
                Seq::new(pre.len(), |i: int| me.modlist.applied(pre[i])),
                me.internal,
            )
        }
    }

    /// The entries that the transaction has written, as they are now.
    pub open spec fn written(self) -> Seq<EntryView> {
        self.store.entries.filter(|e: EntryView| self.touched.contains(e.id))
    }

    /// What keeps the transaction from committing, if anything: what is
    /// wrong with the first written entry that the schema, as it is now,
    /// does not admit.
    pub open spec fn commit_fault(self) -> Option<SchemaError> {
        first_fault(self.schema, self.written())
    }
}

/// Nothing keeps a transaction from committing exactly if the schema, as
/// the transaction leaves it, admits every entry that the transaction has
/// written.
pub proof fn lemma_commit_fault(v: WriteView)
    ensures
        v.commit_fault() is None <==> forall|i: int|
            0 <= i < v.written().len() ==> v.schema.valid_entry(#[trigger] v.written()[i]),
{
    lemma_first_fault(v.schema, v.written());
}

/// All or nothing: where the schema does not admit one of the candidates
/// that the plugins leave, a create and a modify fail as a whole with a
/// schema violation, whatever the other candidates are, and store
/// nothing.
pub proof fn lemma_one_fault_fails_all<P: Pipeline>(
    hooks: P,
    v: WriteView,
    pre: Seq<EntryView>,
    cand: Seq<EntryView>,
    internal: bool,
    i: int,
)
    ensures
        hooks.created(v.store.entries, cand, internal, v.now) matches Some(c) && 0 <= i < c.len()
            && !v.schema.valid_entry(c[i]) ==> v.created(hooks, cand, internal) == Err::<
            WriteView,
            OperationError,
        >(OperationError::SchemaViolation),
        hooks.modified(v.store.entries, pre, cand, internal, v.now) matches Some(c) && 0 <= i
            < c.len() && !v.schema.valid_entry(c[i]) ==> v.replaced(hooks, pre, cand, internal)
            == Err::<WriteView, OperationError>(OperationError::SchemaViolation),
{
    match hooks.created(v.store.entries, cand, internal, v.now) {
        Some(c) => {
            lemma_first_fault(v.schema, c);
        },
        None => {},
    }
    match hooks.modified(v.store.entries, pre, cand, internal, v.now) {
        Some(c) => {
            lemma_first_fault(v.schema, c);
        },
        None => {},
    }
}

fn store_error_of(e: BackendError) -> (r: OperationError)
    ensures
        r == store_error(e),
{
    match e {
        BackendError::EmptyRequest => OperationError::EmptyRequest,
        _ => OperationError::Backend,
    }
}

impl<'a, P: Pipeline> QueryServerWriteTransaction<'a, P> {
    /// The time of the transaction.
    pub fn get_curtime(&self) -> (r: u64)
        ensures
            r == self@.now,
    {
        self.state.curtime
    }

    /// Stores the entries of `ce` as new entries. They pass the create
    /// hooks of the plugins, in order, and the check of the schema, and are
    /// stored in normal form. Where any step fails nothing is stored.
    pub fn create(&mut self, ce: &CreateEvent) -> (r: Result<(), OperationError>)
        ensures
            match old(self)@.created(*old(self).plugins, views(ce.entries@), ce.internal) {
                Ok(v) => r is Ok && final(self)@ == v,
                Err(e) => r == Err::<(), OperationError>(e) && final(self)@ == old(self)@,
            },
            old(self)@.store.wf() ==> final(self)@.store.wf(),
            final(self).be_txn.be@ == old(self).be_txn.be@,
            *final(final(self).be_txn.be) == *final(old(self).be_txn.be),
            final(self).schema == old(self).schema,
            final(self).plugins == old(self).plugins,
    {
        let mut candidates = copy_entries(&ce.entries);
        let res = self.plugins.run_pre_create(&self.be_txn, &mut candidates, ce, self.state.curtime);
        if res.is_err() {
            return res;
        }
        if self.schema.validate(&candidates).is_err() {
            return Err(OperationError::SchemaViolation);
        }
        let norm_cand = self.schema.get_inner().normalise_all(&candidates);
        proof {
            lemma_normalised_all(views(candidates@));
        }
        let first = self.be_txn.next_id();
        match self.be_txn.create(&norm_cand) {
            Err(e) => Err(store_error_of(e)),
            Ok(()) => {
                let ghost before = self.state.touched@;
                let ghost stored = self.be_txn;
                let mut i: usize = 0;
                while i < norm_cand.len()
                    invariant
                        i <= norm_cand.len(),
                        first + norm_cand.len() <= u64::MAX,
                        self.be_txn == stored,
                        self.schema == old(self).schema,
                        self.plugins == old(self).plugins,
                        self.state.curtime == old(self).state.curtime,
                        self.state.touched@ == before + ids_from(first, i as nat),
                    decreases norm_cand.len() - i,
                {
                    proof {
                        assert((before + ids_from(first, i as nat)).push(Some((first + i) as u64))
                            =~= before + ids_from(first, (i + 1) as nat));
                    }
                    self.state.touched.push(Some(first + i as u64));
                    i += 1;
                }
                Ok(())
            },
        }
    }
}


impl<'a, P: Pipeline> QueryServerWriteTransaction<'a, P> {
    /// Puts the candidates `candidates` in place of the entries `pre`: they
    /// pass the modify hooks of the plugins, in order, and the check of the
    /// schema, and are stored in normal form.
    fn replace(&mut self, pre: &Vec<Entry>, candidates: Vec<Entry>, me: &ModifyEvent) -> (r: Result<
        (),
        OperationError,
    >)
        ensures
            match old(self)@.replaced(
                *old(self).plugins,
                views(pre@),
                views(candidates@),
                me.internal,
            ) {
                Ok(v) => r is Ok && final(self)@ == v,
                Err(e) => r == Err::<(), OperationError>(e) && final(self)@ == old(self)@,
            },
            old(self)@.store.wf() ==> final(self)@.store.wf(),
            final(self).be_txn.be@ == old(self).be_txn.be@,
            *final(final(self).be_txn.be) == *final(old(self).be_txn.be),
            final(self).schema == old(self).schema,
            final(self).plugins == old(self).plugins,
    {
        let mut candidates = candidates;
        let res = self.plugins.run_pre_modify(
            &self.be_txn,
            pre,
            &mut candidates,
            me,
            self.state.curtime,
        );
        if res.is_err() {
            return res;
        }
        if self.schema.validate(&candidates).is_err() {
            return Err(OperationError::SchemaViolation);
        }
        let norm_cand = self.schema.get_inner().normalise_all(&candidates);
        proof {
            lemma_normalised_all(views(candidates@));
        }
        match self.be_txn.modify(&norm_cand) {
            Err(e) => Err(store_error_of(e)),
            Ok(()) => {
                let ghost before = self.state.touched@;
                let ghost stored = self.be_txn;
                let mut i: usize = 0;
                while i < candidates.len()
                    invariant
                        i <= candidates.len(),
                        self.be_txn == stored,
                        self.schema == old(self).schema,
                        self.plugins == old(self).plugins,
                        self.state.curtime == old(self).state.curtime,
                        self.state.touched@ == before + ids_of(views(candidates@)).take(i as int),
                    decreases candidates.len() - i,
                {
                    proof {
                        let ids = ids_of(views(candidates@));
                        assert((before + ids.take(i as int)).push(candidates[i as int]@.id) =~= before
                            + ids.take(i + 1));
                    }
                    self.state.touched.push(candidates[i].get_id());
                    i += 1;
                }
                proof {
                    let ids = ids_of(views(candidates@));
                    assert(ids.take(candidates.len() as int) =~= ids);
                }
                Ok(())
            },
        }
    }

    /// Changes the entries that the filter of `me` selects by the list of
    /// `me`. The changed entries pass the modify hooks of the plugins, in
    /// order, and the check of the schema, and are stored in normal form.
    /// Where any step fails nothing is stored.
    pub fn modify(&mut self, me: &ModifyEvent) -> (r: Result<(), OperationError>)
        ensures
            match old(self)@.modified(*old(self).plugins, me) {
                Ok(v) => r is Ok && final(self)@ == v,
                Err(e) => r == Err::<(), OperationError>(e) && final(self)@ == old(self)@,
            },
            old(self)@.store.wf() ==> final(self)@.store.wf(),
            final(self).be_txn.be@ == old(self).be_txn.be@,
            *final(final(self).be_txn.be) == *final(old(self).be_txn.be),
            final(self).schema == old(self).schema,
            final(self).plugins == old(self).plugins,
    {
        if !self.schema.get_inner().validate_filter(&me.filter) {
            return Err(OperationError::SchemaViolation);
        }
        let pre = self.be_txn.search(&me.filter);
        let mut candidates: Vec<Entry> = Vec::new();
        let mut i: usize = 0;
        while i < pre.len()
            invariant
                i <= pre.len(),
                candidates.len() == i,
                forall|k: int|
                    0 <= k < i ==> (#[trigger] candidates[k])@ == me.modlist.applied(pre[k]@),
            decreases pre.len() - i,
        {
            let mut e = pre[i].clone();
            me.modlist.apply(&mut e);
            candidates.push(e);
            i += 1;
        }
        proof {
            let p = views(pre@);
            assert(views(candidates@) =~= Seq::new(p.len(), |i: int| me.modlist.applied(p[i])));
        }
        self.replace(&pre, candidates, me)
    }

    /// Stores `entries` as new entries, on behalf of the server itself.
    pub fn internal_create(&mut self, entries: Vec<Entry>) -> (r: Result<(), OperationError>)
        ensures
            match old(self)@.created(*old(self).plugins, views(entries@), true) {
                Ok(v) => r is Ok && final(self)@ == v,
                Err(e) => r == Err::<(), OperationError>(e) && final(self)@ == old(self)@,
            },
            old(self)@.store.wf() ==> final(self)@.store.wf(),
            final(self).be_txn.be@ == old(self).be_txn.be@,
            *final(final(self).be_txn.be) == *final(old(self).be_txn.be),
            final(self).schema == old(self).schema,
            final(self).plugins == old(self).plugins,
    {
        let ce = CreateEvent::new_internal(entries);
        self.create(&ce)
    }

    /// Changes the entries that `filter` selects by `modlist`, on behalf of
    /// the server itself.
    pub fn internal_modify(&mut self, filter: Filter, modlist: ModifyList) -> (r: Result<
        (),
        OperationError,
    >)
        ensures
            match old(self)@.modified(
                *old(self).plugins,
                &(ModifyEvent { filter, modlist, internal: true }),
            ) {
                Ok(v) => r is Ok && final(self)@ == v,
                Err(e) => r == Err::<(), OperationError>(e) && final(self)@ == old(self)@,
            },
            old(self)@.store.wf() ==> final(self)@.store.wf(),
            final(self).be_txn.be@ == old(self).be_txn.be@,
            *final(final(self).be_txn.be) == *final(old(self).be_txn.be),
            final(self).schema == old(self).schema,
            final(self).plugins == old(self).plugins,
    {
        let me = ModifyEvent::new_internal(filter, modlist);
        self.modify(&me)
    }

    /// Commits the transaction: the schema, as the transaction leaves it,
    /// checks every entry that the transaction has written; then the record
    /// store commits, and after it the schema store. Where the check fails
    /// nothing is committed: both stores stay as they were before the
    /// transaction. A transaction commits at most once: the commit uses it
    /// up.
    pub fn commit(self) -> (r: Result<(), OperationError>)
        ensures
            match r {
                Ok(()) => {
                    &&& self@.commit_fault() is None
                    &&& final(self.be_txn.be)@ == self@.store
                    &&& final(self.schema.schema)@ == self@.schema
                },
                Err(e) => {
                    &&& e == OperationError::SchemaViolation
                    &&& self@.commit_fault() is Some
                    &&& final(self.be_txn.be)@ == old(self.be_txn.be)@
                    &&& final(self.schema.schema)@ == old(self.schema.schema)@
                },
            },
    {
        let all = self.be_txn.get_entries();
        let ghost pred = |e: EntryView| self@.touched.contains(e.id);
        let mut written: Vec<Entry> = Vec::new();
        let mut i: usize = 0;
        proof {
            reveal(Seq::filter);
            assert(views(all@).take(0) =~= Seq::<EntryView>::empty());
            assert(views(written@) =~= Seq::<EntryView>::empty());
        }
        while i < all.len()
            invariant
                i <= all.len(),
                pred == (|e: EntryView| self@.touched.contains(e.id)),
                views(written@) == views(all@).take(i as int).filter(pred),
            decreases all.len() - i,
        {
            proof {
                let s = views(all@);
                s.lemma_take_succ_push(i as int);
                s.take(i as int).lemma_filter_push(s[i as int], pred);
            }
            if holds_id(&self.state.touched, all[i].get_id()) {
                let e = all[i].clone();
                proof {
                    crate::entry::lemma_views_push(written@, e);
                }
                written.push(e);
            }
            i += 1;
        }
        proof {
            assert(views(all@).take(all.len() as int) =~= views(all@));
        }
        if self.schema.validate(&written).is_err() {
            return Err(OperationError::SchemaViolation);
        }
        let QueryServerWriteTransaction { be_txn, schema, plugins, state } = self;
        be_txn.commit();
        schema.commit();
        Ok(())
    }
}

fn holds_id(ids: &Vec<Option<u64>>, id: Option<u64>) -> (r: bool)
    ensures
        r == ids@.contains(id),
{
    let mut i: usize = 0;
    while i < ids.len()
        invariant
            i <= ids.len(),
            forall|k: int| 0 <= k < i ==> ids[k] != id,
        decreases ids.len() - i,
    {
        let same = match (ids[i], id) {
            (Some(a), Some(b)) => a == b,
            (None, None) => true,
            _ => false,
        };
        if same {
            return true;
        }
        i += 1;
    }
    false
}


/// The attributes by which the server finds one of its own entries again.
pub open spec fn ident_names() -> Seq<Seq<char>> {
    seq!["name"@, "uuid"@]
}

/// Whether `e` holds the attributes by which it is found again.
pub open spec fn identifiable(e: EntryView) -> bool {
    e.has_attr("name"@) && e.has_attr("uuid"@)
}

/// The entries of `s` that hold every name and every uuid that `e` holds.
pub open spec fn identified(s: Seq<EntryView>, e: EntryView) -> Seq<EntryView> {
    s.filter(|x: EntryView| covers(x, e, ident_names()))
}

/// Entry `x` with the values of `e` added: what `x` holds besides stays.
pub open spec fn merged(x: EntryView, e: EntryView) -> EntryView {
    added_all(x, e.avas)
}

/// Entry `x` brought to the shape of `e`: it keeps its identifier and holds
/// the values of `e` and no others.
pub open spec fn reshaped(x: EntryView, e: EntryView) -> EntryView {
    added_all(EntryView { id: x.id, avas: Seq::empty() }, e.avas)
}

/// Two filters that agree on every item of a list keep the same items.
pub proof fn lemma_filter_same<A>(s: Seq<A>, p: spec_fn(A) -> bool, q: spec_fn(A) -> bool)
    requires
        forall|i: int| 0 <= i < s.len() ==> p(#[trigger] s[i]) == q(s[i]),
    ensures
        s.filter(p) == s.filter(q),
    decreases s.len(),
{
    reveal(Seq::filter);
    if s.len() > 0 {
        let front = s.drop_last();
        assert forall|i: int| 0 <= i < front.len() implies p(#[trigger] front[i]) == q(
            front[i],
        ) by {
            assert(front[i] == s[i]);
        }
        lemma_filter_same(front, p, q);
        assert(p(s[s.len() - 1]) == q(s[s.len() - 1]));
    }
}

/// A filter selects an entry of a list exactly if the list of what it
/// selects is not empty.
pub proof fn lemma_any_selected(s: Seq<EntryView>, f: &Filter)
    ensures
        any_selected(s, f) <==> selected(s, f).len() > 0,
{
    broadcast use vstd::seq_lib::group_filter_ensures;

    let pred = |e: EntryView| f.matches(e);
    let out = s.filter(pred);
    if any_selected(s, f) {
        let i = choose|i: int| 0 <= i < s.len() && f.matches(#[trigger] s[i]);
        assert(pred(s[i]));
        assert(out.contains(s[i]));
    }
    if out.len() > 0 {
        assert(pred(out[0]));
        assert(out.contains(out[0]));
        s.lemma_filter_contains_rev(pred, out[0]);
        let k = choose|k: int| 0 <= k < s.len() && s[k] == out[0];
        assert(f.matches(s[k]));
    }
}

impl WriteView {
    /// Whether the schema defines the attributes by which entries are found
    /// again.
    pub open spec fn ident_known(self) -> bool {
        self.schema.knows("name"@) && self.schema.knows("uuid"@)
    }

    /// What `internal_exists_or_create` gives for `e`.
    pub open spec fn exists_or_created<P: Pipeline>(self, hooks: P, e: EntryView) -> Result<
        WriteView,
        OperationError,
    > {
        if !identifiable(e) {
            Err(OperationError::FilterGeneration)
        } else if !self.ident_known() {
            Err(OperationError::SchemaViolation)
        } else if identified(self.store.entries, e).len() > 0 {
            Ok(self)
        } else {
            self.created(hooks, seq![e], true)
        }
    }

    /// What `internal_migrate_or_create` gives for `e`.
    pub open spec fn migrated_or_created<P: Pipeline>(
        self,
        hooks: P,
        e: EntryView,
    ) -> Result<WriteView, OperationError> {
        if !identifiable(e) {
            Err(OperationError::FilterGeneration)
        } else if !self.ident_known() {
            Err(OperationError::SchemaViolation)
        } else {
            let pre = identified(self.store.entries, e);
            if pre.len() > 0 {
                self.replaced(hooks, pre, Seq::new(pre.len(), |i: int| merged(pre[i], e)), true)
            } else {
                self.created(hooks, seq![e], true)
            }
        }
    }

    /// What `internal_assert_or_create` gives for `e`.
    pub open spec fn asserted_or_created<P: Pipeline>(
        self,
        hooks: P,
        e: EntryView,
    ) -> Result<WriteView, OperationError> {
        if !identifiable(e) {
            Err(OperationError::FilterGeneration)
        } else if !self.ident_known() {
            Err(OperationError::SchemaViolation)
        } else {
            let pre = identified(self.store.entries, e);
            if pre.len() > 0 {
                self.replaced(hooks, pre, Seq::new(pre.len(), |i: int| reshaped(pre[i], e)), true)
            } else {
                self.created(hooks, seq![e], true)
            }
        }
    }
}

impl WriteView {
    /// What `initialise` gives: the entry that describes the server is
    /// brought to its fixed shape, or created; then the values of the
    /// account for anonymous access are added to it, or it is created.
    pub open spec fn initialised<P: Pipeline>(self, hooks: P) -> Result<
        WriteView,
        OperationError,
    > {
        match self.asserted_or_created(hooks, system_info()) {
            Err(e) => Err(e),
            Ok(v) => v.migrated_or_created(hooks, anonymous()),
        }
    }
}

fn ident_attrs() -> (r: Vec<String>)
    ensures
        views(r@) == ident_names(),
{
    let mut v: Vec<String> = Vec::new();
    v.push("name".to_owned());
    v.push("uuid".to_owned());
    proof {
        assert(views(v@) =~= ident_names());
    }
    v
}

/// The filter that finds `e` again by its names and uuids.
fn ident_filter(e: &Entry) -> (r: Result<Filter, OperationError>)
    ensures
        match r {
            Ok(f) => {
                &&& identifiable(e@)
                &&& forall|x: EntryView| f.matches(x) <==> covers(x, e@, ident_names())
                &&& forall|name: Seq<char>| f.mentions(name) <==> ident_names().contains(name)
            },
            Err(err) => !identifiable(e@) && err == OperationError::FilterGeneration,
        },
{
    let attrs = ident_attrs();
    let found = e.filter_from_attrs(&attrs);
    proof {
        let names = views(attrs@);
        assert(ident_names().len() == 2);
        assert(names.len() == attrs@.len());
        assert(names[0] == "name"@);
        assert(names[1] == "uuid"@);
        if found is Some {
            assert(e@.has_attr(names[0]));
            assert(e@.has_attr(names[1]));
        } else {
            let i = choose|i: int| 0 <= i < attrs@.len() && !e@.has_attr(#[trigger] names[i]);
            assert(i == 0 || i == 1);
        }
    }
    match found {
        Some(f) => Ok(f),
        None => Err(OperationError::FilterGeneration),
    }
}

/// What the filter of `ident_filter` means to a state of the server.
proof fn lemma_ident_filter(v: WriteView, e: EntryView, f: &Filter)
    requires
        forall|x: EntryView| f.matches(x) <==> covers(x, e, ident_names()),
        forall|name: Seq<char>| f.mentions(name) <==> ident_names().contains(name),
    ensures
        v.schema.valid_filter(f) <==> v.ident_known(),
        selected(v.store.entries, f) == identified(v.store.entries, e),
        any_selected(v.store.entries, f) <==> identified(v.store.entries, e).len() > 0,
{
    assert(ident_names()[0] == "name"@);
    assert(ident_names()[1] == "uuid"@);
    assert(ident_names().contains("name"@));
    assert(ident_names().contains("uuid"@));
    lemma_filter_same(
        v.store.entries,
        |x: EntryView| f.matches(x),
        |x: EntryView| covers(x, e, ident_names()),
    );
    lemma_any_selected(v.store.entries, f);
}

/// Appends to `mods` the changes that add the values of `e`, in order.
fn presents(e: &Entry, mods: &mut Vec<Modify>)
    ensures
        forall|x: EntryView| #[trigger]
            applied_all(final(mods)@, x) == added_all(applied_all(old(mods)@, x), e@.avas),
{
    let mut k: usize = 0;
    proof {
        assert(e@.avas.take(0) =~= Seq::<AvaView>::empty());
    }
    while k < e.len()
        invariant
            k <= e@.avas.len(),
            forall|x: EntryView| #[trigger]
                applied_all(mods@, x) == added_all(
                    applied_all(old(mods)@, x),
                    e@.avas.take(k as int),
                ),
        decreases e@.avas.len() - k,
    {
        let m = Modify::Present(e.name_at(k).clone(), e.value_at(k).clone());
        let ghost prev = mods@;
        mods.push(m);
        proof {
            assert(mods@.drop_last() =~= prev);
            assert(e@.avas.take(k + 1).drop_last() =~= e@.avas.take(k as int));
            assert forall|x: EntryView| #[trigger]
                applied_all(mods@, x) == added_all(
                    applied_all(old(mods)@, x),
                    e@.avas.take(k + 1),
                ) by {
                assert(applied_all(prev, x) == added_all(
                    applied_all(old(mods)@, x),
                    e@.avas.take(k as int),
                ));
            }
        }
        k += 1;
    }
    proof {
        assert(e@.avas.take(e@.avas.len() as int) =~= e@.avas);
    }
}


/// What is left after a purge was held before it, under another name.
proof fn lemma_purge_contains(y: EntryView, n: Seq<char>, a: AvaView)
    requires
        y.purge(n).avas.contains(a),
    ensures
        y.avas.contains(a),
        a.name != n,
{
    broadcast use vstd::seq_lib::group_filter_ensures;

    let pred = |a: AvaView| a.name != n;
    let out = y.avas.filter(pred);
    y.avas.lemma_filter_contains_rev(pred, a);
    let k = choose|k: int| 0 <= k < out.len() && out[k] == a;
    assert(pred(out[k]));
}

/// The changes that clear every attribute of every entry of `targets`.
fn purges(targets: &Vec<Entry>) -> (r: Vec<Modify>)
    ensures
        forall|i: int|
            0 <= i < targets.len() ==> applied_all(r@, #[trigger] targets[i]@) == (EntryView {
                id: targets[i]@.id,
                avas: Seq::empty(),
            }),
{
    let mut mods: Vec<Modify> = Vec::new();
    let ghost mut names: Seq<Seq<char>> = Seq::empty();
    let mut t: usize = 0;
    while t < targets.len()
        invariant
            t <= targets.len(),
            forall|x: EntryView| (#[trigger] applied_all(mods@, x)).id == x.id,
            forall|x: EntryView, a: AvaView| #[trigger]
                applied_all(mods@, x).avas.contains(a) ==> x.avas.contains(a) && !names.contains(
                    a.name,
                ),
            forall|i: int, k: int|
                0 <= i < t && 0 <= k < targets[i]@.avas.len() ==> names.contains(
                    (#[trigger] targets[i]@.avas[k]).name,
                ),
        decreases targets.len() - t,
    {
        let e = &targets[t];
        let mut k: usize = 0;
        while k < e.len()
            invariant
                t < targets.len(),
                e == &targets[t as int],
                k <= e@.avas.len(),
                forall|x: EntryView| (#[trigger] applied_all(mods@, x)).id == x.id,
                forall|x: EntryView, a: AvaView| #[trigger]
                    applied_all(mods@, x).avas.contains(a) ==> x.avas.contains(a)
                        && !names.contains(a.name),
                forall|i: int, j: int|
                    0 <= i < t && 0 <= j < targets[i]@.avas.len() ==> names.contains(
                        (#[trigger] targets[i]@.avas[j]).name,
                    ),
                forall|j: int| 0 <= j < k ==> names.contains((#[trigger] e@.avas[j]).name),
            decreases e@.avas.len() - k,
        {
            let m = Modify::Purged(e.name_at(k).clone());
            let ghost n = e@.avas[k as int].name;
            let ghost prev = mods@;
            let ghost prev_names = names;
            mods.push(m);
            proof {
                names = names.push(n);
                assert(mods@.drop_last() =~= prev);
                assert forall|x: EntryView| (#[trigger] applied_all(mods@, x)).id == x.id by {
                    assert(applied_all(prev, x).id == x.id);
                }
                assert forall|x: EntryView, a: AvaView| #[trigger]
                    applied_all(mods@, x).avas.contains(a) implies x.avas.contains(a)
                    && !names.contains(a.name) by {
                    let y = applied_all(prev, x);
                    assert(applied_all(mods@, x) == y.purge(n));
                    lemma_purge_contains(y, n, a);
                    assert(y.avas.contains(a));
                    if names.contains(a.name) {
                        let j = choose|j: int| 0 <= j < names.len() && names[j] == a.name;
                        if j < prev_names.len() {
                            assert(prev_names[j] == a.name);
                        }
                    }
                }
                assert forall|i: int, j: int|
                    0 <= i < t && 0 <= j < targets[i]@.avas.len() implies names.contains(
                    (#[trigger] targets[i]@.avas[j]).name,
                ) by {
                    let nm = targets[i]@.avas[j].name;
                    assert(prev_names.contains(nm));
                    let q = choose|q: int| 0 <= q < prev_names.len() && prev_names[q] == nm;
                    assert(names[q] == nm);
                }
                assert forall|j: int| 0 <= j < k + 1 implies names.contains(
                    (#[trigger] e@.avas[j]).name,
                ) by {
                    let nm = e@.avas[j].name;
                    if j < k {
                        assert(prev_names.contains(nm));
                        let q = choose|q: int| 0 <= q < prev_names.len() && prev_names[q] == nm;
                        assert(names[q] == nm);
                    } else {
                        assert(names[names.len() - 1] == nm);
                    }
                }
            }
            k += 1;
        }
        t += 1;
    }
    proof {
        assert forall|i: int| 0 <= i < targets.len() implies applied_all(
            mods@,
            #[trigger] targets[i]@,
        ) == (EntryView { id: targets[i]@.id, avas: Seq::empty() }) by {
            let x = targets[i]@;
            let r = applied_all(mods@, x);
            if r.avas.len() > 0 {
                let a = r.avas[0];
                assert(r.avas.contains(a));
                let k = choose|k: int| 0 <= k < x.avas.len() && x.avas[k] == a;
                assert(names.contains(targets[i]@.avas[k].name));
            }
            assert(r.avas =~= Seq::<AvaView>::empty());
        }
    }
    mods
}


impl<'a, P: Pipeline> QueryServerWriteTransaction<'a, P> {
    /// Creates `e` unless an entry with its names and uuids is stored. An
    /// entry that is stored stays as it is.
    pub fn internal_exists_or_create(&mut self, e: Entry) -> (r: Result<(), OperationError>)
        ensures
            match old(self)@.exists_or_created(*old(self).plugins, e@) {
                Ok(v) => r is Ok && final(self)@ == v,
                Err(err) => r == Err::<(), OperationError>(err) && final(self)@ == old(self)@,
            },
            old(self)@.store.wf() ==> final(self)@.store.wf(),
            final(self).be_txn.be@ == old(self).be_txn.be@,
            *final(final(self).be_txn.be) == *final(old(self).be_txn.be),
            final(self).schema == old(self).schema,
            final(self).plugins == old(self).plugins,
    {
        let filt = match ident_filter(&e) {
            Ok(f) => f,
            Err(err) => {
                return Err(err);
            },
        };
        proof {
            lemma_ident_filter(self@, e@, &filt);
        }
        match self.internal_exists(filt) {
            Err(err) => Err(err),
            Ok(true) => Ok(()),
            Ok(false) => {
                let mut entries: Vec<Entry> = Vec::new();
                entries.push(e);
                proof {
                    assert(views(entries@) =~= seq![e@]);
                }
                self.internal_create(entries)
            },
        }
    }

    /// Creates `e` unless an entry with its names and uuids is stored. To
    /// an entry that is stored the values of `e` are added; what it holds
    /// besides stays.
    pub fn internal_migrate_or_create(&mut self, e: Entry) -> (r: Result<(), OperationError>)
        ensures
            match old(self)@.migrated_or_created(*old(self).plugins, e@) {
                Ok(v) => r is Ok && final(self)@ == v,
                Err(err) => r == Err::<(), OperationError>(err) && final(self)@ == old(self)@,
            },
            old(self)@.store.wf() ==> final(self)@.store.wf(),
            final(self).be_txn.be@ == old(self).be_txn.be@,
            *final(final(self).be_txn.be) == *final(old(self).be_txn.be),
            final(self).schema == old(self).schema,
            final(self).plugins == old(self).plugins,
    {
        let filt = match ident_filter(&e) {
            Ok(f) => f,
            Err(err) => {
                return Err(err);
            },
        };
        proof {
            lemma_ident_filter(self@, e@, &filt);
        }
        match self.internal_exists(filt.clone()) {
            Err(err) => Err(err),
            Ok(true) => {
                let mut mods: Vec<Modify> = Vec::new();
                presents(&e, &mut mods);
                let me = ModifyEvent::new_internal(filt, ModifyList::new_list(mods));
                proof {
                    lemma_ident_filter(self@, e@, &me.filter);
                    let pre = identified(self@.store.entries, e@);
                    assert(Seq::new(pre.len(), |i: int| me.modlist.applied(pre[i])) =~= Seq::new(
                        pre.len(),
                        |i: int| merged(pre[i], e@),
                    )) by {
                        assert forall|i: int| 0 <= i < pre.len() implies me.modlist.applied(pre[i])
                            == merged(pre[i], e@) by {
                            assert(applied_all(mods@, pre[i]) == added_all(
                                applied_all(Seq::<Modify>::empty(), pre[i]),
                                e@.avas,
                            ));
                        }
                    }
                }
                self.modify(&me)
            },
            Ok(false) => {
                let mut entries: Vec<Entry> = Vec::new();
                entries.push(e);
                proof {
                    assert(views(entries@) =~= seq![e@]);
                }
                self.internal_create(entries)
            },
        }
    }

    /// Creates `e` unless an entry with its names and uuids is stored. An
    /// entry that is stored is brought to the shape of `e`: it keeps its
    /// identifier and holds the values of `e` and no others.
    pub fn internal_assert_or_create(&mut self, e: Entry) -> (r: Result<(), OperationError>)
        ensures
            match old(self)@.asserted_or_created(*old(self).plugins, e@) {
                Ok(v) => r is Ok && final(self)@ == v,
                Err(err) => r == Err::<(), OperationError>(err) && final(self)@ == old(self)@,
            },
            old(self)@.store.wf() ==> final(self)@.store.wf(),
            final(self).be_txn.be@ == old(self).be_txn.be@,
            *final(final(self).be_txn.be) == *final(old(self).be_txn.be),
            final(self).schema == old(self).schema,
            final(self).plugins == old(self).plugins,
    {
        let filt = match ident_filter(&e) {
            Ok(f) => f,
            Err(err) => {
                return Err(err);
            },
        };
        proof {
            lemma_ident_filter(self@, e@, &filt);
        }
        let targets = match self.internal_search(filt.clone()) {
            Ok(found) => found,
            Err(err) => {
                return Err(err);
            },
        };
        if targets.len() == 0 {
            let mut entries: Vec<Entry> = Vec::new();
            entries.push(e);
            proof {
                assert(views(entries@) =~= seq![e@]);
            }
            return self.internal_create(entries);
        }
        let mut mods = purges(&targets);
        let ghost cleared = mods@;
        presents(&e, &mut mods);
        let me = ModifyEvent::new_internal(filt, ModifyList::new_list(mods));
        proof {
            lemma_ident_filter(self@, e@, &me.filter);
            let pre = identified(self@.store.entries, e@);
            assert(pre == views(targets@));
            assert(Seq::new(pre.len(), |i: int| me.modlist.applied(pre[i])) =~= Seq::new(
                pre.len(),
                |i: int| reshaped(pre[i], e@),
            )) by {
                assert forall|i: int| 0 <= i < pre.len() implies me.modlist.applied(pre[i])
                    == reshaped(pre[i], e@) by {
                    assert(pre[i] == targets[i]@);
                    assert(applied_all(cleared, targets[i]@) == (EntryView {
                        id: targets[i]@.id,
                        avas: Seq::empty(),
                    }));
                    assert(applied_all(mods@, pre[i]) == added_all(
                        applied_all(cleared, pre[i]),
                        e@.avas,
                    ));
                }
            }
        }
        self.modify(&me)
    }
}


impl<'a, P: Pipeline> QueryServerWriteTransaction<'a, P> {
    /// Makes sure that the store holds the entries that every server
    /// holds. What the first step has stored stays in the transaction where
    /// the second fails.
    pub fn initialise(&mut self) -> (r: Result<(), OperationError>)
        ensures
            match old(self)@.initialised(*old(self).plugins) {
                Ok(v) => r is Ok && final(self)@ == v,
                Err(err) => r == Err::<(), OperationError>(err) && final(self)@ == match old(
                    self,
                )@.asserted_or_created(*old(self).plugins, system_info()) {
                    Ok(v) => v,
                    Err(_) => old(self)@,
                },
            },
            old(self)@.store.wf() ==> final(self)@.store.wf(),
            final(self).be_txn.be@ == old(self).be_txn.be@,
            *final(final(self).be_txn.be) == *final(old(self).be_txn.be),
            final(self).schema == old(self).schema,
            final(self).plugins == old(self).plugins,
    {
        let res = self.internal_assert_or_create(system_info_v1());
        if res.is_err() {
            return res;
        }
        self.internal_migrate_or_create(anonymous_v1())
    }
}


/// The state in which the first transaction of a server over the store `be`
/// begins at time `curtime`: the schema holds the core definitions and
/// nothing has been touched.
pub open spec fn first_view(be: StoreView, curtime: u64) -> WriteView {
    WriteView {
        store: be,
        schema: bootstrapped(SchemaView { attributes: Seq::empty(), classes: Seq::empty() }),
        touched: Seq::empty(),
        now: curtime,
    }
}

/// Brings up a server with the standard pipeline over the store `be`, at
/// time `curtime`: the schema gets its core definitions, and one
/// transaction makes sure of the entries that every server holds and
/// commits. There is no server where that transaction fails.
pub fn start(be: Backend, curtime: u64) -> (r: Result<QueryServer<StandardPlugins>, OperationError>)
    ensures
        match first_view(be@, curtime).initialised(standard()) {
            Err(e) => r matches Err(err) && err == e,
            Ok(w) => match w.commit_fault() {
                Some(_) => r matches Err(err) && err == OperationError::SchemaViolation,
                None => r matches Ok(qs) && qs@ == (ServerView { store: w.store, schema: w.schema })
                    && qs.hooks() == standard(),
            },
        },
        be@.wf() ==> (r matches Ok(qs) ==> qs@.store.wf()),
{
    let mut schema = Schema::new();
    {
        let mut schema_write = schema.write();
        schema_write.bootstrap_core();
        schema_write.commit();
    }
    let mut query_server = QueryServer::new(be, schema, standard_plugins());
    {
        let mut query_server_write = query_server.write(curtime);
        match query_server_write.initialise() {
            Ok(()) => {},
            Err(e) => {
                return Err(e);
            },
        }
        match query_server_write.commit() {
            Ok(()) => {},
            Err(e) => {
                return Err(e);
            },
        }
    }
    Ok(query_server)
}


impl<P: Pipeline> QueryServer<P> {
    /// The state in which a write transaction of this server begins at time
    /// `curtime`.
    pub open spec fn begin(&self, curtime: u64) -> WriteView {
        WriteView {
            store: self@.store,
            schema: self@.schema,
            touched: Seq::empty(),
            now: curtime,
        }
    }

    /// Answers a search on the committed state, in a read transaction.
    pub fn handle_search(&self, msg: &SearchEvent) -> (r: Result<SearchResult, OperationError>)
        ensures
            match r {
                Ok(res) => self@.schema.valid_filter(&msg.filter) && views(res.entries@)
                    == selected(self@.store.entries, &msg.filter),
                Err(e) => !self@.schema.valid_filter(&msg.filter) && e
                    == OperationError::SchemaViolation,
            },
    {
        let qs_read = self.read();
        match qs_read.search(msg) {
            Ok(entries) => Ok(SearchResult::new(entries)),
            Err(e) => Err(e),
        }
    }

    /// Carries out a create in a write transaction of its own, at time
    /// `curtime`, and commits it. Where the create or the commit fails the
    /// server stays as it was.
    pub fn handle_create(&mut self, msg: &CreateEvent, curtime: u64) -> (r: Result<
        OpResult,
        OperationError,
    >)
        ensures
            match old(self).begin(curtime).created(
                old(self).hooks(),
                views(msg.entries@),
                msg.internal,
            ) {
                Err(e) => r matches Err(err) && err == e && final(self)@ == old(self)@,
                Ok(w) => match w.commit_fault() {
                    Some(_) => r matches Err(err) && err == OperationError::SchemaViolation
                        && final(self)@ == old(self)@,
                    None => r is Ok && final(self)@ == (ServerView {
                        store: w.store,
                        schema: w.schema,
                    }),
                },
            },
            old(self)@.store.wf() ==> final(self)@.store.wf(),
            final(self).hooks() == old(self).hooks(),
    {
        let mut qs_write = self.write(curtime);
        match qs_write.create(msg) {
            Ok(()) => {},
            Err(e) => {
                return Err(e);
            },
        }
        match qs_write.commit() {
            Ok(()) => Ok(OpResult {  }),
            Err(e) => Err(e),
        }
    }
}

} // verus!
