//! Protection of the entries of the server itself: a request from outside
//! may neither create nor change an entry of class `system_info`.
use vstd::prelude::*;
use crate::be::BackendWriteTransaction;
use crate::entry::{views, Entry, EntryView};
use crate::error::OperationError;
use crate::event::{CreateEvent, ModifyEvent};
use crate::plugins::Plugin;
use crate::value::{PartialValue, PartialValueView};

verus! {

/// Whether the entry belongs to the server itself.
pub open spec fn is_protected(e: EntryView) -> bool {
    e.has("class"@, PartialValueView::Utf8("system_info"@))
}

/// Whether one of the entries belongs to the server itself.
pub open spec fn any_protected(es: Seq<EntryView>) -> bool {
    exists|i: int| 0 <= i < es.len() && is_protected(#[trigger] es[i])
}

fn holds_protected(es: &Vec<Entry>) -> (r: bool)
    ensures
        r == any_protected(views(es@)),
{
    let class = PartialValue::new_utf8s("system_info");
    let mut i: usize = 0;
    while i < es.len()
        invariant
            i <= es.len(),
            class@ == PartialValueView::Utf8("system_info"@),
            forall|k: int| 0 <= k < i ==> !is_protected(#[trigger] views(es@)[k]),
        decreases es.len() - i,
    {
        if es[i].attribute_equality("class", &class) {
            assert(is_protected(views(es@)[i as int]));
            return true;
        }
        i += 1;
    }
    false
}

/// The plugin that protects the entries of the server itself. It changes
/// no candidate.
pub struct Protected {}

impl Plugin for Protected {
    open spec fn created(
        &self,
        store: Seq<EntryView>,
        cand: Seq<EntryView>,
        internal: bool,
        now: u64,
    ) -> Option<Seq<EntryView>> {
        if !internal && any_protected(cand) {
            None
        } else {
            Some(cand)
        }
    }

    open spec fn modified(
        &self,
        store: Seq<EntryView>,
        pre: Seq<EntryView>,
        cand: Seq<EntryView>,
        internal: bool,
        now: u64,
    ) -> Option<Seq<EntryView>> {
        if !internal && (any_protected(pre) || any_protected(cand)) {
            None
        } else {
            Some(cand)
        }
    }

    fn id(&self) -> (r: &'static str)
        ensures
            r@ == "plugin_protected"@,
    {
        "plugin_protected"
    }

    fn pre_create(
        &self,
        be: &BackendWriteTransaction<'_>,
        cand: &mut Vec<Entry>,
        ce: &CreateEvent,
        now: u64,
    ) -> (r: Result<(), OperationError>) {
        if !ce.internal && holds_protected(cand) {
            Err(OperationError::Plugin)
        } else {
            Ok(())
        }
    }

    fn pre_modify(
        &self,
        be: &BackendWriteTransaction<'_>,
        pre_cand: &Vec<Entry>,
        cand: &mut Vec<Entry>,
        me: &ModifyEvent,
        now: u64,
    ) -> (r: Result<(), OperationError>) {
        if !me.internal && (holds_protected(pre_cand) || holds_protected(cand)) {
            Err(OperationError::Plugin)
        } else {
            Ok(())
        }
    }

    proof fn lemma_shape(
        &self,
        store: Seq<EntryView>,
        pre: Seq<EntryView>,
        cand: Seq<EntryView>,
        internal: bool,
        now: u64,
    ) {
    }

    proof fn lemma_idempotent(
        &self,
        store: Seq<EntryView>,
        pre: Seq<EntryView>,
        cand: Seq<EntryView>,
        internal: bool,
        now: u64,
    ) {
    }
}

} // verus!
