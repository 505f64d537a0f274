//! The plugins that keep entries consistent before they are stored, and the
//! pipeline that runs them in a fixed order.
use vstd::prelude::*;
use crate::be::BackendWriteTransaction;
use crate::entry::{views, Entry, EntryView};
use crate::error::OperationError;
use crate::event::{CreateEvent, ModifyEvent};

pub mod protected;
pub mod session;

verus! {

/// Whether `after` holds as many entries as `before`, under the same
/// identifiers, and a well-formed entry wherever `before` holds one.
pub open spec fn same_shape(before: Seq<EntryView>, after: Seq<EntryView>) -> bool {
    &&& after.len() == before.len()
    &&& forall|i: int|
        0 <= i < before.len() ==> (#[trigger] after[i]).id == before[i].id && (before[i].wf()
            ==> after[i].wf())
}

/// A consistency check that runs inside write operations. A hook may change
/// the candidates, or reject the whole operation. What a hook does depends
/// on the entries that the transaction sees, on the candidates, on whether
/// the server itself asks, and on the time of the transaction.
pub trait Plugin {
    /// The candidates `cand` of a create as this plugin leaves them, or
    /// `None` where it rejects them. `store` holds the entries that the
    /// transaction sees.
    spec fn created(
        &self,
        store: Seq<EntryView>,
        cand: Seq<EntryView>,
        internal: bool,
        now: u64,
    ) -> Option<Seq<EntryView>>;

    /// The candidates `cand` of a modify as this plugin leaves them, or
    /// `None` where it rejects them. `pre` holds the entries as they were
    /// before the operation.
    spec fn modified(
        &self,
        store: Seq<EntryView>,
        pre: Seq<EntryView>,
        cand: Seq<EntryView>,
        internal: bool,
        now: u64,
    ) -> Option<Seq<EntryView>>;

    /// The name of the plugin.
    fn id(&self) -> &'static str;

    fn pre_create(
        &self,
        be: &BackendWriteTransaction<'_>,
        cand: &mut Vec<Entry>,
        ce: &CreateEvent,
        now: u64,
    ) -> (r: Result<(), OperationError>)
        ensures
            match self.created(be@.entries, views(old(cand)@), ce.internal, now) {
                Some(c) => r is Ok && views(final(cand)@) == c,
                None => r == Err::<(), OperationError>(OperationError::Plugin),
            },
    ;

    fn pre_modify(
        &self,
        be: &BackendWriteTransaction<'_>,
        pre_cand: &Vec<Entry>,
        cand: &mut Vec<Entry>,
        me: &ModifyEvent,
        now: u64,
    ) -> (r: Result<(), OperationError>)
        ensures
            match self.modified(be@.entries, views(pre_cand@), views(old(cand)@), me.internal, now) {
                Some(c) => r is Ok && views(final(cand)@) == c,
                None => r == Err::<(), OperationError>(OperationError::Plugin),
            },
    ;

    /// A hook leaves as many candidates as it found, under the same
    /// identifiers, and leaves none of them with a repeated value.
    proof fn lemma_shape(
        &self,
        store: Seq<EntryView>,
        pre: Seq<EntryView>,
        cand: Seq<EntryView>,
        internal: bool,
        now: u64,
    )
        ensures
            self.created(store, cand, internal, now) matches Some(c) ==> same_shape(cand, c),
            self.modified(store, pre, cand, internal, now) matches Some(c) ==> same_shape(cand, c),
    ;

    /// A hook is idempotent: on what it has left it changes nothing, at
    /// the same time and on the same store.
    proof fn lemma_idempotent(
        &self,
        store: Seq<EntryView>,
        pre: Seq<EntryView>,
        cand: Seq<EntryView>,
        internal: bool,
        now: u64,
    )
        ensures
            self.created(store, cand, internal, now) matches Some(c) ==> self.created(
                store,
                c,
                internal,
                now,
            ) == Some(c),
            self.modified(store, pre, cand, internal, now) matches Some(c) ==> self.modified(
                store,
                pre,
                c,
                internal,
                now,
            ) == Some(c),
    ;
}

/// An ordered list of hooks. The order is fixed when the list is made, and
/// the server is made with the list.
pub trait Pipeline {
    /// The candidates `cand` of a create after the hooks have run in order,
    /// or `None` where one of them rejects what it is given.
    spec fn created(
        &self,
        store: Seq<EntryView>,
        cand: Seq<EntryView>,
        internal: bool,
        now: u64,
    ) -> Option<Seq<EntryView>>;

    /// The candidates `cand` of a modify after the hooks have run in order,
    /// or `None` where one of them rejects what it is given.
    spec fn modified(
        &self,
        store: Seq<EntryView>,
        pre: Seq<EntryView>,
        cand: Seq<EntryView>,
        internal: bool,
        now: u64,
    ) -> Option<Seq<EntryView>>;

    /// Runs the create hooks in order on `cand`. The first error ends the
    /// run.
    fn run_pre_create(
        &self,
        be: &BackendWriteTransaction<'_>,
        cand: &mut Vec<Entry>,
        ce: &CreateEvent,
        now: u64,
    ) -> (r: Result<(), OperationError>)
        ensures
            match self.created(be@.entries, views(old(cand)@), ce.internal, now) {
                Some(c) => r is Ok && views(final(cand)@) == c,
                None => r == Err::<(), OperationError>(OperationError::Plugin),
            },
    ;

    /// Runs the modify hooks in order on `cand`. The first error ends the
    /// run.
    fn run_pre_modify(
        &self,
        be: &BackendWriteTransaction<'_>,
        pre_cand: &Vec<Entry>,
        cand: &mut Vec<Entry>,
        me: &ModifyEvent,
        now: u64,
    ) -> (r: Result<(), OperationError>)
        ensures
            match self.modified(be@.entries, views(pre_cand@), views(old(cand)@), me.internal, now) {
                Some(c) => r is Ok && views(final(cand)@) == c,
                None => r == Err::<(), OperationError>(OperationError::Plugin),
            },
    ;

    /// The hooks leave as many candidates as they found, under the same
    /// identifiers, and leave none of them with a repeated value.
    proof fn lemma_shape(
        &self,
        store: Seq<EntryView>,
        pre: Seq<EntryView>,
        cand: Seq<EntryView>,
        internal: bool,
        now: u64,
    )
        ensures
            self.created(store, cand, internal, now) matches Some(c) ==> same_shape(cand, c),
            self.modified(store, pre, cand, internal, now) matches Some(c) ==> same_shape(cand, c),
    ;
}

/// The list without hooks.
pub struct NoPlugins {}

impl Pipeline for NoPlugins {
    open spec fn created(
        &self,
        store: Seq<EntryView>,
        cand: Seq<EntryView>,
        internal: bool,
        now: u64,
    ) -> Option<Seq<EntryView>> {
        Some(cand)
    }

    open spec fn modified(
        &self,
        store: Seq<EntryView>,
        pre: Seq<EntryView>,
        cand: Seq<EntryView>,
        internal: bool,
        now: u64,
    ) -> Option<Seq<EntryView>> {
        Some(cand)
    }

    fn run_pre_create(
        &self,
        be: &BackendWriteTransaction<'_>,
        cand: &mut Vec<Entry>,
        ce: &CreateEvent,
        now: u64,
    ) -> (r: Result<(), OperationError>) {
        Ok(())
    }

    fn run_pre_modify(
        &self,
        be: &BackendWriteTransaction<'_>,
        pre_cand: &Vec<Entry>,
        cand: &mut Vec<Entry>,
        me: &ModifyEvent,
        now: u64,
    ) -> (r: Result<(), OperationError>) {
        Ok(())
    }

    proof fn lemma_shape(
        &self,
        store: Seq<EntryView>,
        pre: Seq<EntryView>,
        cand: Seq<EntryView>,
        internal: bool,
        now: u64,
    ) {
    }
}

/// The list that runs `hook` and then the hooks of `rest`. An error of
/// `hook` ends the run.
pub struct Plugins<P: Plugin, R: Pipeline> {
    pub hook: P,
    pub rest: R,
}

impl<P: Plugin, R: Pipeline> Pipeline for Plugins<P, R> {
    open spec fn created(
        &self,
        store: Seq<EntryView>,
        cand: Seq<EntryView>,
        internal: bool,
        now: u64,
    ) -> Option<Seq<EntryView>> {
        match self.hook.created(store, cand, internal, now) {
            None => None,
            Some(c) => self.rest.created(store, c, internal, now),
        }
    }

    open spec fn modified(
        &self,
        store: Seq<EntryView>,
        pre: Seq<EntryView>,
        cand: Seq<EntryView>,
        internal: bool,
        now: u64,
    ) -> Option<Seq<EntryView>> {
        match self.hook.modified(store, pre, cand, internal, now) {
            None => None,
            Some(c) => self.rest.modified(store, pre, c, internal, now),
        }
    }

    fn run_pre_create(
        &self,
        be: &BackendWriteTransaction<'_>,
        cand: &mut Vec<Entry>,
        ce: &CreateEvent,
        now: u64,
    ) -> (r: Result<(), OperationError>) {
        let res = self.hook.pre_create(be, cand, ce, now);
        if res.is_err() {
            return res;
        }
        self.rest.run_pre_create(be, cand, ce, now)
    }

    fn run_pre_modify(
        &self,
        be: &BackendWriteTransaction<'_>,
        pre_cand: &Vec<Entry>,
        cand: &mut Vec<Entry>,
        me: &ModifyEvent,
        now: u64,
    ) -> (r: Result<(), OperationError>) {
        let res = self.hook.pre_modify(be, pre_cand, cand, me, now);
        if res.is_err() {
            return res;
        }
        self.rest.run_pre_modify(be, pre_cand, cand, me, now)
    }

    proof fn lemma_shape(
        &self,
        store: Seq<EntryView>,
        pre: Seq<EntryView>,
        cand: Seq<EntryView>,
        internal: bool,
        now: u64,
    ) {
        self.hook.lemma_shape(store, pre, cand, internal, now);
        match self.hook.created(store, cand, internal, now) {
            Some(c) => {
                self.rest.lemma_shape(store, pre, c, internal, now);
            },
            None => {},
        }
        match self.hook.modified(store, pre, cand, internal, now) {
            Some(c) => {
                self.rest.lemma_shape(store, pre, c, internal, now);
            },
            None => {},
        }
    }
}

impl<P: Plugin, R: Pipeline> Plugins<P, R> {
    /// The list that runs `hook` and then the hooks of `rest`.
    pub fn new(hook: P, rest: R) -> (r: Plugins<P, R>)
        ensures
            r.hook == hook,
            r.rest == rest,
    {
        Plugins { hook, rest }
    }
}

} // verus!
